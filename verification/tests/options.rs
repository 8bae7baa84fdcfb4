use diff_kdbx::options::{DiffOptions, DumpOptions, RenderOptions};

#[test]
fn diff_options_default() {
    let o = DiffOptions::default();
    assert!(!o.strict);
    assert!(!o.show_secrets);
    assert!(!o.include_recycle_bin);
}

#[test]
fn dump_options_default() {
    let o = DumpOptions::default();
    assert!(!o.strict);
    assert!(!o.show_secrets);
    assert!(!o.include_recycle_bin);
}

#[test]
fn render_options_default_no_color() {
    assert!(!RenderOptions::default().color);
}
