use desktag::desktop::current_label;

#[test]
fn current_label_formats_a_read() {
    let ok: Result<(u32, String), &str> = Ok((1, " work ".to_string()));
    assert_eq!(current_label(ok), Ok("2 · work".to_string()));
    let unnamed: Result<(u32, String), &str> = Ok((0, String::new()));
    assert_eq!(current_label(unnamed), Ok("Desktop 1".to_string()));
    let failed: Result<(u32, String), &str> = Err("no desktop");
    assert_eq!(current_label(failed), Err("no desktop"));
}
