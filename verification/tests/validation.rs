use wgsl_flatten::resolve::ResolveError;
use wgsl_flatten::tree::SourceTree;
use wgsl_flatten::validate::build_shader;
use wgsl_flatten::validate::validate;
use wgsl_flatten::validate::BuildOutcome;
use wgsl_flatten::validate::ValidationFault;

const GOOD_WGSL: &[u8] = b"@vertex\nfn vs_main() -> @builtin(position) vec4<f32> {\n    return vec4<f32>(0.0, 0.0, 0.0, 1.0);\n}\n";

#[test]
fn accepts_valid_wgsl() {
    let path = b"/s/ok.wgsl".to_vec();
    assert!(validate(&path, &GOOD_WGSL.to_vec()).is_ok());
}

#[test]
fn accepts_empty_module() {
    let path = b"/s/empty.wgsl".to_vec();
    assert!(validate(&path, &Vec::new()).is_ok());
}

#[test]
fn rejects_unparsable_text_with_anchored_diagnostic() {
    let path = b"/s/bad.wgsl".to_vec();
    let src = b"fn fn fn".to_vec();
    match validate(&path, &src) {
        Err(ValidationFault::Parse { diagnostic }) => {
            assert!(diagnostic.contains("/s/bad.wgsl"));
        }
        _ => panic!("expected a parse fault"),
    }
}

#[test]
fn build_produces_artifact_with_root_label() {
    let mut t = SourceTree::new();
    let root = t.add_file(b"/s/shader.wgsl".to_vec());
    t.set_file_text(root, GOOD_WGSL.to_vec());
    match build_shader(&t, root) {
        BuildOutcome::Built(a) => {
            assert_eq!(a.label, b"/s/shader.wgsl".to_vec());
            assert_eq!(a.source, GOOD_WGSL.to_vec());
            assert_eq!(a.deps, vec![root]);
        }
        _ => panic!("expected a built artifact"),
    }
}

#[test]
fn build_short_circuits_on_resolution_failure() {
    let mut t = SourceTree::new();
    let root = t.add_file(b"/s/shader.wgsl".to_vec());
    t.set_file_unreadable(root, b"no such file".to_vec());
    match build_shader(&t, root) {
        BuildOutcome::ResolveFailed(ResolveError::Unreadable { path, .. }) => {
            assert_eq!(path, b"/s/shader.wgsl".to_vec());
        }
        _ => panic!("expected a resolve failure"),
    }
}

#[test]
fn build_reports_validation_failure_on_bad_flattened_text() {
    let mut t = SourceTree::new();
    let root = t.add_file(b"/s/shader.wgsl".to_vec());
    t.set_file_text(root, b"this is not wgsl".to_vec());
    match build_shader(&t, root) {
        BuildOutcome::ValidationFailed(ValidationFault::Parse { diagnostic }) => {
            assert!(diagnostic.contains("/s/shader.wgsl"));
        }
        _ => panic!("expected a validation failure"),
    }
}
