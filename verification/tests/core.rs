use misclab_core::ai::{image_data_url, image_source, judge_prompt, ImageSource, ModelConfig, Usage};
use misclab_core::b64::{base64_decode_text, base64_encode_text};
use misclab_core::cancel::CancellationToken;
use misclab_core::core_version;
use misclab_core::error::CoreError;
use misclab_core::graph::port::PortType;
use misclab_core::graph::script_node::{resolve_command, sanitize, substitute, tokenize, truncate};
use misclab_core::input::FileHandle;
use misclab_core::model::{Severity, Stage};
use misclab_core::node::descriptor::PortSpec;
use misclab_core::node::NodeEnv;

#[test]
fn version_is_the_crate_version() {
    assert_eq!(core_version(), "0.1.0");
}

#[test]
fn cancellation_is_shared_by_clones() {
    let t = CancellationToken::new();
    assert!(!t.is_cancelled());
    assert!(t.check().is_ok());
    let u = t.clone();
    u.cancel();
    assert!(t.is_cancelled());
    assert!(matches!(t.check(), Err(CoreError::Cancelled)));
}

#[test]
fn port_type_acceptance() {
    assert!(PortType::Any.accepts(PortType::Bytes));
    assert!(PortType::Bytes.accepts(PortType::Any));
    assert!(PortType::Json.accepts(PortType::Json));
    assert!(PortType::Text.accepts(PortType::Number));
    assert!(PortType::Text.accepts(PortType::Bool));
    assert!(PortType::Text.accepts(PortType::StringList));
    assert!(!PortType::Text.accepts(PortType::Bytes));
    assert!(!PortType::Number.accepts(PortType::Text));
}

#[test]
fn port_spec_new() {
    let p = PortSpec::new("data", "输入", PortType::Any, true);
    assert_eq!(p.name, "data");
    assert_eq!(p.label, "输入");
    assert_eq!(p.port_type, PortType::Any);
    assert!(p.required);
    assert_eq!(p.description, "");
}

#[test]
fn stages_and_severities() {
    assert_eq!(Stage::TypeId.number(), 1);
    assert_eq!(Stage::Correlate.number(), 5);
    assert!(Severity::Info < Severity::Critical);
}

#[test]
fn model_configuration() {
    let mut m = ModelConfig::default();
    assert!(!m.is_configured());
    m.base_url = "https://api.example.com/v1//".to_string();
    m.model = "  ".to_string();
    assert!(!m.is_configured());
    m.model = "gpt".to_string();
    assert!(m.is_configured());
    assert_eq!(m.endpoint(), "https://api.example.com/v1/chat/completions");
    let u = Usage::default();
    assert_eq!(u.total_tokens, 0);
}

#[test]
fn tokenizes_quoted_arguments() {
    assert_eq!(tokenize(r#"-i "a b.txt"  -o out"#), vec!["-i", "a b.txt", "-o", "out"]);
    assert_eq!(tokenize(r#""" x"#), vec!["", "x"]);
    assert_eq!(tokenize("   "), Vec::<String>::new());
    assert_eq!(tokenize("a\tb\nc"), vec!["a", "b", "c"]);
}

#[test]
fn substitutes_known_placeholders() {
    let table = vec![
        ("in".to_string(), "/tmp/in_x".to_string()),
        ("n".to_string(), "3".to_string()),
        ("n".to_string(), "4".to_string()),
    ];
    assert_eq!(substitute("--file={in}", &table), "--file=/tmp/in_x");
    assert_eq!(substitute("{n}{n}", &table), "44");
    assert_eq!(substitute("{unknown}", &table), "{unknown}");
    assert_eq!(substitute("{{n}", &table), "{4");
    assert_eq!(substitute("{open", &table), "{open");
}

#[test]
fn sanitizes_and_truncates() {
    assert_eq!(sanitize("a b/c-d_e.1"), "a_b_c-d_e_1");
    assert_eq!(truncate("héllo", 3), "hél…");
    assert_eq!(truncate("abc", 3), "abc");
}

#[test]
fn resolves_tool_commands() {
    let mut env = NodeEnv::default();
    env.tools.push(("python".to_string(), "  /usr/bin/python3 ".to_string()));
    env.tools.push(("blank".to_string(), "   ".to_string()));
    assert_eq!(resolve_command("$tool:python", &env).unwrap(), "/usr/bin/python3");
    assert_eq!(resolve_command("ls", &env).unwrap(), "ls");
    match resolve_command("$tool:blank", &env) {
        Err(CoreError::Other(m)) => assert_eq!(m, "未配置工具「blank」，请在设置中填写其可执行文件路径"),
        other => panic!("{:?}", other),
    }
    assert!(resolve_command("$tool:none", &env).is_err());
}

#[test]
fn file_handle_reports_its_size() {
    let h = FileHandle::with_size(std::path::PathBuf::from("/tmp/x.bin"), 42);
    assert_eq!(h.size(), 42);
    assert_eq!(h.path().to_str(), Some("/tmp/x.bin"));
}

#[test]
fn judge_prompt_adds_the_format_request() {
    assert_eq!(judge_prompt("指令", "内容", "  "), "指令\n\n内容");
    assert_eq!(
        judge_prompt("指令", "内容", "JSON"),
        "指令\n\n内容\n\n请严格按以下格式输出（只输出结果本身，不要额外说明）：\nJSON"
    );
}

#[test]
fn vision_input_is_url_or_file() {
    match image_source("  https://x/y.png ") {
        ImageSource::Url(u) => assert_eq!(u, "https://x/y.png"),
        ImageSource::File(..) => panic!("a URL was taken for a file"),
    }
    match image_source("shot.jpeg") {
        ImageSource::File(p, m) => {
            assert_eq!(p, "shot.jpeg");
            assert_eq!(m, "image/jpeg");
        }
        ImageSource::Url(_) => panic!("a file was taken for a URL"),
    }
    match image_source("scan.bmp") {
        ImageSource::File(_, m) => assert_eq!(m, "image/png"),
        ImageSource::Url(_) => panic!("a file was taken for a URL"),
    }
    assert_eq!(image_data_url(b"hi", "image/png"), "data:image/png;base64,aGk=");
}

#[test]
fn base64_text_nodes() {
    assert_eq!(base64_decode_text("aGVs\nbG8=", false).unwrap(), "hello");
    assert_eq!(base64_decode_text("Pz8-", true).unwrap(), "??>");
    assert_eq!(base64_encode_text("??>", false), "Pz8+");
    assert_eq!(base64_encode_text("??>", true), "Pz8-");
    match base64_decode_text("a", false) {
        Err(CoreError::Parse(m)) => assert!(m.starts_with("Base64 解码失败: "), "{m}"),
        _ => panic!("bad base64 decoded"),
    }
}
