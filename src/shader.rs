//! Shader sources kept by name, and their conversion between shading
//! languages.

use vstd::prelude::*;

verus! {

/// Shading languages a shader can be written in or converted to.
#[derive(Clone, Copy, PartialEq, Eq, Hash, Debug, Structural)]
pub enum ShaderFormat {
    WGSL,
    GLSL,
    HLSL,
}

/// Kinds of shader parameters.
#[derive(Clone, Copy, PartialEq, Eq, Debug, Structural)]
pub enum ShaderParamType {
    Float,
    Vec2,
    Vec3,
    Vec4,
    Mat4,
    Texture,
}

/// The language and entry points that newly loaded shaders take.
#[derive(Clone, Debug)]
pub struct ShaderConfig {
    pub format: ShaderFormat,
    pub vertex_entry: String,
    pub fragment_entry: String,
    pub compute_entry: Option<String>,
}

impl ShaderConfig {
    /// A copy of the configuration.
    fn duplicate(&self) -> (r: ShaderConfig)
        ensures
            r == *self,
    {
        let compute_entry = match &self.compute_entry {
            Some(e) => Some(e.clone()),
            None => None,
        };
        ShaderConfig {
            format: self.format,
            vertex_entry: self.vertex_entry.clone(),
            fragment_entry: self.fragment_entry.clone(),
            compute_entry,
        }
    }
}

/// Errors of the shader store.
#[derive(Clone, Debug)]
pub enum ShaderError {
    /// No shader of that name is loaded.
    NotFound(String),
}

/// `s` with every match of `from` replaced by `to`. Matches are found from
/// the left and do not overlap; an empty `from` matches before every
/// character and at the end.
pub open spec fn replaced(s: Seq<char>, from: Seq<char>, to: Seq<char>) -> Seq<char>
    decreases s.len(),
{
    if from.len() == 0 {
        if s.len() == 0 {
            to
        } else {
            to + seq![s[0]] + replaced(s.skip(1), from, to)
        }
    } else if s.len() < from.len() {
        s
    } else if s.take(from.len() as int) == from {
        to + replaced(s.skip(from.len() as int), from, to)
    } else {
        seq![s[0]] + replaced(s.skip(1), from, to)
    }
}

/// Relies on `str::replace`: it replaces the matches of `from` in `s`, taken
/// from the left without overlap, by `to`.
#[verifier::external_body]
fn replace_all(s: &str, from: &str, to: &str) -> (r: String)
    ensures
        r@ == replaced(s@, from@, to@),
{
    s.replace(from, to)
}

/// WGSL source rewritten into GLSL syntax, one textual substitution at a time.
pub open spec fn wgsl_to_glsl(src: Seq<char>) -> Seq<char> {
    let s1 = replaced(src, "@fragment"@, ""@);
    let s2 = replaced(s1, "fn "@, "void "@);
    let s3 = replaced(s2, "-> vec4<f32>"@, ""@);
    let s4 = replaced(s3, "vec4<f32>("@, "vec4("@);
    let s5 = replaced(s4, "vec3<f32>("@, "vec3("@);
    let s6 = replaced(s5, "vec2<f32>("@, "vec2("@);
    replaced(s6, "f32"@, "float"@)
}

/// GLSL source rewritten into WGSL syntax, one textual substitution at a time.
pub open spec fn glsl_to_wgsl(src: Seq<char>) -> Seq<char> {
    let s1 = replaced(src, "void main()"@, "@fragment\nfn main() -> @location(0) vec4<f32>"@);
    let s2 = replaced(s1, "vec4("@, "vec4<f32>("@);
    let s3 = replaced(s2, "vec3("@, "vec3<f32>("@);
    let s4 = replaced(s3, "vec2("@, "vec2<f32>("@);
    replaced(s4, "float"@, "f32"@)
}

/// The text that compiling `src`, written in `format`, for `target` yields.
pub open spec fn converted(format: ShaderFormat, target: ShaderFormat, src: Seq<char>) -> Seq<char> {
    if format == target {
        src
    } else if format == ShaderFormat::WGSL && target == ShaderFormat::GLSL {
        wgsl_to_glsl(src)
    } else if format == ShaderFormat::GLSL && target == ShaderFormat::WGSL {
        glsl_to_wgsl(src)
    } else {
        src
    }
}

/// A named shader source with the configuration it was loaded under.
pub struct Shader {
    name: String,
    source: String,
    config: ShaderConfig,
    compiled_versions: Vec<(ShaderFormat, String)>,
}

impl Shader {
    pub closed spec fn name_view(&self) -> Seq<char> {
        self.name@
    }

    pub closed spec fn source_view(&self) -> Seq<char> {
        self.source@
    }

    pub closed spec fn config_view(&self) -> ShaderConfig {
        self.config
    }

    /// The cached conversions, as (format, text) pairs.
    pub closed spec fn cache_view(&self) -> Seq<(ShaderFormat, Seq<char>)> {
        self.compiled_versions@.map_values(|e: (ShaderFormat, String)| (e.0, e.1@))
    }

    /// Every cached conversion is the conversion of the source.
    pub closed spec fn wf(&self) -> bool {
        forall|i: int|
            0 <= i < self.compiled_versions@.len() ==> (#[trigger] self.compiled_versions@[i]).1@
                == converted(self.config.format, self.compiled_versions@[i].0, self.source@)
    }

    /// A shader whose source counts as already compiled for its own format.
    pub fn new(name: &str, source: &str, config: ShaderConfig) -> (r: Result<Shader, ShaderError>)
        ensures
            r is Ok,
            r->Ok_0.wf(),
            r->Ok_0.name_view() == name@,
            r->Ok_0.source_view() == source@,
            r->Ok_0.config_view() == config,
            r->Ok_0.cache_view() == seq![(config.format, source@)],
    {
        let mut compiled_versions: Vec<(ShaderFormat, String)> = Vec::new();
        compiled_versions.push((config.format, source.to_owned()));
        let shader = Shader { name: name.to_owned(), source: source.to_owned(), config, compiled_versions };
        proof {
            assert(shader.compiled_versions@[0].1@ == source@);
            assert(shader.cache_view() =~= seq![(config.format, source@)]);
        }
        Ok(shader)
    }

    /// The source converted to `target`.
    pub fn compile(&self, target: ShaderFormat) -> (r: Result<String, ShaderError>)
        requires
            self.wf(),
        ensures
            r is Ok,
            r->Ok_0@ == converted(self.config_view().format, target, self.source_view()),
    {
        let mut i: usize = 0;
        while i < self.compiled_versions.len()
            invariant
                self.wf(),
                i <= self.compiled_versions@.len(),
            decreases self.compiled_versions@.len() - i,
        {
            if self.compiled_versions[i].0 == target {
                proof {
                    assert(self.compiled_versions@[i as int] == self.compiled_versions[i as int]);
                }
                return Ok(self.compiled_versions[i].1.clone());
            }
            i += 1;
        }
        let src = self.source.as_str();
        match (self.config.format, target) {
            (ShaderFormat::WGSL, ShaderFormat::GLSL) => {
                let s1 = replace_all(src, "@fragment", "");
                let s2 = replace_all(s1.as_str(), "fn ", "void ");
                let s3 = replace_all(s2.as_str(), "-> vec4<f32>", "");
                let s4 = replace_all(s3.as_str(), "vec4<f32>(", "vec4(");
                let s5 = replace_all(s4.as_str(), "vec3<f32>(", "vec3(");
                let s6 = replace_all(s5.as_str(), "vec2<f32>(", "vec2(");
                Ok(replace_all(s6.as_str(), "f32", "float"))
            },
            (ShaderFormat::GLSL, ShaderFormat::WGSL) => {
                let s1 = replace_all(
                    src,
                    "void main()",
                    "@fragment\nfn main() -> @location(0) vec4<f32>",
                );
                let s2 = replace_all(s1.as_str(), "vec4(", "vec4<f32>(");
                let s3 = replace_all(s2.as_str(), "vec3(", "vec3<f32>(");
                let s4 = replace_all(s3.as_str(), "vec2(", "vec2<f32>(");
                Ok(replace_all(s4.as_str(), "float", "f32"))
            },
            _ => Ok(self.source.clone()),
        }
    }
}

/// Loaded shaders, at most one per name, and the configuration given to
/// shaders as they are loaded.
pub struct ShaderProcessor {
    loaded_shaders: Vec<Shader>,
    config: ShaderConfig,
}

impl ShaderProcessor {
    /// The shader loaded under `name`, if any.
    pub closed spec fn lookup(&self, name: Seq<char>) -> Option<Shader> {
        if exists|i: int| 0 <= i < self.loaded_shaders@.len() && (#[trigger] self.loaded_shaders@[i]).name@ == name {
            let i = choose|i: int|
                0 <= i < self.loaded_shaders@.len() && (#[trigger] self.loaded_shaders@[i]).name@ == name;
            Some(self.loaded_shaders@[i])
        } else {
            None
        }
    }

    /// The configuration new shaders are loaded under.
    pub closed spec fn config_view(&self) -> ShaderConfig {
        self.config
    }

    /// Names are distinct and every shader is well formed.
    pub closed spec fn wf(&self) -> bool {
        &&& forall|i: int, j: int|
            0 <= i < self.loaded_shaders@.len() && 0 <= j < self.loaded_shaders@.len() && i != j
                ==> (#[trigger] self.loaded_shaders@[i]).name@ != (#[trigger] self.loaded_shaders@[j]).name@
        &&& forall|i: int| 0 <= i < self.loaded_shaders@.len() ==> (#[trigger] self.loaded_shaders@[i]).wf()
    }

    /// An empty store configured for WGSL with entry points `vs_main` and `fs_main`.
    pub fn new() -> (r: ShaderProcessor)
        ensures
            r.wf(),
            forall|n: Seq<char>| r.lookup(n) is None,
            r.config_view().format == ShaderFormat::WGSL,
            r.config_view().vertex_entry@ == "vs_main"@,
            r.config_view().fragment_entry@ == "fs_main"@,
            r.config_view().compute_entry is None,
    {
        ShaderProcessor {
            loaded_shaders: Vec::new(),
            config: ShaderConfig {
                format: ShaderFormat::WGSL,
                vertex_entry: "vs_main".to_owned(),
                fragment_entry: "fs_main".to_owned(),
                compute_entry: None,
            },
        }
    }

    /// Loads `source` under `name`, with the current configuration,
    /// replacing any shader of that name.
    pub fn load_shader(&mut self, name: &str, source: &str) -> (r: Result<(), ShaderError>)
        requires
            old(self).wf(),
        ensures
            final(self).wf(),
            r is Ok,
            final(self).config_view() == old(self).config_view(),
            final(self).lookup(name@) matches Some(s) && s.name_view() == name@ && s.source_view()
                == source@ && s.config_view() == old(self).config_view() && s.cache_view() == seq![
                (old(self).config_view().format, source@)],
            forall|n: Seq<char>| n != name@ ==> #[trigger] final(self).lookup(n) == old(self).lookup(n),
    {
        let shader = match Shader::new(name, source, self.config.duplicate()) {
            Ok(s) => s,
            Err(e) => {
                return Err(e);
            },
        };
        let ghost old_shaders = self.loaded_shaders@;
        let found = self.position(name);
        let i: usize = match found {
            Some(i) => {
                self.loaded_shaders.set(i, shader);
                i
            },
            None => {
                let n = self.loaded_shaders.len();
                self.loaded_shaders.push(shader);
                n
            },
        };
        proof {
            let s2 = self.loaded_shaders@;
            assert(s2[i as int].name@ == name@);
            assert forall|a: int, b: int| 0 <= a < s2.len() && 0 <= b < s2.len() && a != b implies (
            #[trigger] s2[a]).name@ != (#[trigger] s2[b]).name@ by {
                if a != i && b != i {
                    assert(s2[a] == old_shaders[a] && s2[b] == old_shaders[b]);
                } else if a != i {
                    assert(s2[a] == old_shaders[a]);
                } else {
                    assert(s2[b] == old_shaders[b]);
                }
            }
            assert forall|a: int| 0 <= a < s2.len() implies (#[trigger] s2[a]).wf() by {
                if a != i {
                    assert(s2[a] == old_shaders[a]);
                }
            }
            assert(exists|j: int| 0 <= j < s2.len() && (#[trigger] s2[j]).name@ == name@);
            assert(forall|j: int| 0 <= j < s2.len() && j != i ==> s2[j] == old_shaders[j]);
            assert forall|n: Seq<char>| n != name@ implies #[trigger] self.lookup(n) == old(self).lookup(n) by {
                if exists|j: int| 0 <= j < s2.len() && (#[trigger] s2[j]).name@ == n {
                    let j = choose|j: int| 0 <= j < s2.len() && (#[trigger] s2[j]).name@ == n;
                    assert(old_shaders[j].name@ == n);
                }
                if exists|j: int| 0 <= j < old_shaders.len() && (#[trigger] old_shaders[j]).name@ == n {
                    let j = choose|j: int| 0 <= j < old_shaders.len() && (#[trigger] old_shaders[j]).name@ == n;
                    assert(s2[j].name@ == n);
                }
            }
        }
        Ok(())
    }

    /// Index of the shader loaded under `name`.
    fn position(&self, name: &str) -> (r: Option<usize>)
        requires
            self.wf(),
        ensures
            r matches Some(i) ==> i < self.loaded_shaders@.len() && self.loaded_shaders@[i as int].name@
                == name@ && self.lookup(name@) == Some(self.loaded_shaders@[i as int]),
            r is None ==> self.lookup(name@) is None && forall|j: int|
                0 <= j < self.loaded_shaders@.len() ==> (#[trigger] self.loaded_shaders@[j]).name@ != name@,
    {
        let mut i: usize = 0;
        while i < self.loaded_shaders.len()
            invariant
                self.wf(),
                i <= self.loaded_shaders@.len(),
                forall|j: int| 0 <= j < i ==> (#[trigger] self.loaded_shaders@[j]).name@ != name@,
            decreases self.loaded_shaders@.len() - i,
        {
            if self.loaded_shaders[i].name == name.to_owned() {
                return Some(i);
            }
            i += 1;
        }
        None
    }

    /// The shader loaded under `name`, converted to `target`.
    pub fn compile_shader(&self, name: &str, target: ShaderFormat) -> (r: Result<String, ShaderError>)
        requires
            self.wf(),
        ensures
            self.lookup(name@) is None ==> (r matches Err(ShaderError::NotFound(n)) && n@ == name@),
            self.lookup(name@) is Some ==> (r matches Ok(t) && t@ == converted(
                self.lookup(name@)->Some_0.config_view().format,
                target,
                self.lookup(name@)->Some_0.source_view(),
            )),
    {
        match self.position(name) {
            Some(i) => self.loaded_shaders[i].compile(target),
            None => Err(ShaderError::NotFound(name.to_owned())),
        }
    }

    /// The source of the shader loaded under `name`.
    pub fn get_shader_source(&self, name: &str) -> (r: Option<&str>)
        requires
            self.wf(),
        ensures
            self.lookup(name@) is None ==> r is None,
            self.lookup(name@) is Some ==> (r matches Some(t) && t@ == self.lookup(
                name@,
            )->Some_0.source_view()),
    {
        match self.position(name) {
            Some(i) => Some(self.loaded_shaders[i].source.as_str()),
            None => None,
        }
    }

    /// Replaces the configuration given to shaders loaded from now on.
    pub fn configure(&mut self, config: ShaderConfig)
        requires
            old(self).wf(),
        ensures
            final(self).wf(),
            final(self).config_view() == config,
            forall|n: Seq<char>| #[trigger] final(self).lookup(n) == old(self).lookup(n),
    {
        self.config = config;
    }
}

} // verus!
