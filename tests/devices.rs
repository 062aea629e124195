use immersive_vj_system::{
    DataType, InputPort, MidiEventType, MidiInputDevice, MidiOutputDevice, OutputPort, ShaderConfig,
    ShaderError, ShaderFormat, ShaderProcessor, Shader,
};

#[test]
fn midi_devices_connect_and_disconnect() {
    let mut input = MidiInputDevice::new("keys");
    assert_eq!(input.name(), "keys");
    assert!(!input.is_connected());
    assert!(input.connect().is_ok());
    assert!(input.is_connected());
    input.disconnect();
    assert!(!input.is_connected());

    let mut output = MidiOutputDevice::new("synth");
    assert_eq!(output.name(), "synth");
    assert!(!output.is_connected());
    assert!(output.connect().is_ok());
    assert!(output.is_connected());
    output.disconnect();
    assert!(!output.is_connected());
    assert_ne!(MidiEventType::NoteOn, MidiEventType::NoteOff);
}

#[test]
fn ports_carry_name_type_and_requirement() {
    let p = InputPort::new("in", DataType::Image);
    assert_eq!(p.name, "in");
    assert_eq!(p.data_type, DataType::Image);
    assert!(p.required);
    let q = InputPort::optional("mask", DataType::Mask);
    assert!(!q.required);
    let o = OutputPort::new("out", DataType::AudioBuffer);
    assert_eq!(o.name, "out");
    assert_eq!(o.data_type, DataType::AudioBuffer);
}

const WGSL: &str = "@fragment\nfn main() -> vec4<f32> {\n    return vec4<f32>(vec3<f32>(1.0), 1.0);\n}";

#[test]
fn wgsl_compiles_to_glsl_by_substitution() {
    let mut p = ShaderProcessor::new();
    p.load_shader("test_shader", WGSL).unwrap();
    let glsl = p.compile_shader("test_shader", ShaderFormat::GLSL).unwrap();
    assert_eq!(glsl, "\nvoid main()  {\n    return vec4(vec3(1.0), 1.0);\n}");
}

#[test]
fn glsl_compiles_to_wgsl_by_substitution() {
    let mut p = ShaderProcessor::new();
    p.configure(ShaderConfig {
        format: ShaderFormat::GLSL,
        vertex_entry: "main".to_string(),
        fragment_entry: "main".to_string(),
        compute_entry: None,
    });
    p.load_shader("g", "void main() { float x = 1.0; gl_FragColor = vec4(vec2(x), 0.0, 1.0); }")
        .unwrap();
    let wgsl = p.compile_shader("g", ShaderFormat::WGSL).unwrap();
    assert_eq!(
        wgsl,
        "@fragment\nfn main() -> @location(0) vec4<f32> { f32 x = 1.0; gl_FragColor = vec4<f32>(vec2<f32>(x), 0.0, 1.0); }"
    );
    // the shader's own format is served from the cache, unchanged
    assert_eq!(
        p.compile_shader("g", ShaderFormat::GLSL).unwrap(),
        "void main() { float x = 1.0; gl_FragColor = vec4(vec2(x), 0.0, 1.0); }"
    );
}

#[test]
fn other_targets_keep_the_source() {
    let mut p = ShaderProcessor::new();
    p.load_shader("s", WGSL).unwrap();
    assert_eq!(p.compile_shader("s", ShaderFormat::WGSL).unwrap(), WGSL);
    assert_eq!(p.compile_shader("s", ShaderFormat::HLSL).unwrap(), WGSL);
}

#[test]
fn unknown_shader_is_reported() {
    let p = ShaderProcessor::new();
    match p.compile_shader("missing", ShaderFormat::GLSL) {
        Err(ShaderError::NotFound(name)) => assert_eq!(name, "missing"),
        other => panic!("unexpected {:?}", other),
    }
    assert_eq!(p.get_shader_source("missing"), None);
}

#[test]
fn loading_again_replaces_the_source() {
    let mut p = ShaderProcessor::new();
    p.load_shader("a", "first").unwrap();
    p.load_shader("b", "other").unwrap();
    p.load_shader("a", "second").unwrap();
    assert_eq!(p.get_shader_source("a"), Some("second"));
    assert_eq!(p.get_shader_source("b"), Some("other"));
}

#[test]
fn shader_compiles_for_its_own_format() {
    let cfg = ShaderConfig {
        format: ShaderFormat::HLSL,
        vertex_entry: "vs".to_string(),
        fragment_entry: "ps".to_string(),
        compute_entry: Some("cs".to_string()),
    };
    let s = Shader::new("h", "float4 main() : SV_Target { return 1; }", cfg).unwrap();
    assert_eq!(
        s.compile(ShaderFormat::HLSL).unwrap(),
        "float4 main() : SV_Target { return 1; }"
    );
    assert_eq!(
        s.compile(ShaderFormat::GLSL).unwrap(),
        "float4 main() : SV_Target { return 1; }"
    );
}
