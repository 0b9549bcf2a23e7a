use bwww::error::Error;
use bwww::site::statics::{static_entry_action, StaticAction};

fn refusal(result: Result<StaticAction, Error>) -> String {
    match result {
        Err(Error::InvalidWorkspace(message)) => message,
        other => panic!("expected a refusal, got {:?}", other),
    }
}

#[test]
fn decides_each_static_entry() {
    let act = |name, link, dir, file, exists| {
        static_entry_action(name, "static/x", "dist.tmp/x", link, dir, file, exists)
    };
    assert_eq!(act(".gitkeep", true, false, false, true).unwrap(), StaticAction::Skip);
    assert_eq!(act("css", false, true, false, true).unwrap(), StaticAction::Descend);
    assert_eq!(act("a.css", false, false, true, false).unwrap(), StaticAction::Copy);
    assert_eq!(act("fifo", false, false, false, false).unwrap(), StaticAction::Ignore);
    assert_eq!(refusal(act("..", false, true, false, false)), "unsafe static path: static/x");
    assert_eq!(refusal(act("a\\b", false, false, true, false)), "unsafe static path: static/x");
    assert_eq!(refusal(act("link", true, false, false, false)), "static symlink is not allowed: static/x");
    assert_eq!(
        refusal(act("index.html", false, false, true, true)),
        "static file collides with generated output: dist.tmp/x"
    );
}
