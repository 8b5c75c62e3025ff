use jterm1::terminal::launch::{default_tab_title, shell_argv, startup_lines};

fn argv(words: &[&str]) -> Vec<String> {
    words.iter().map(|w| w.to_string()).collect()
}

#[test]
fn titles_show_the_directory() {
    let home = Some("/home/u");
    assert_eq!(default_tab_title(1, Some("/home/u"), home), "~");
    assert_eq!(default_tab_title(1, Some("/home/u/"), home), "~");
    assert_eq!(default_tab_title(1, None, home), "~");
    assert_eq!(default_tab_title(1, Some("  "), home), "~");
    assert_eq!(default_tab_title(1, Some("/"), home), "/");
    assert_eq!(default_tab_title(1, Some("/home/u/src/app"), home), "~/s/app");
    assert_eq!(default_tab_title(1, Some("/home/under"), home), "/h/under");
    assert_eq!(default_tab_title(1, Some("/var/.cache/./x/log"), home), "/v/.c/./x/log");
    assert_eq!(default_tab_title(1, Some("/srv"), None), "/srv");
    assert_eq!(default_tab_title(3, None, None), "Terminal 3");
}

#[test]
fn sessions_are_resumed_where_the_shell_can() {
    assert_eq!(
        shell_argv(&argv(&["/usr/bin/rsh", "-l"]), Some("id")),
        argv(&["/usr/bin/rsh", "-l", "--session", "id"])
    );
    assert_eq!(shell_argv(&argv(&["bash"]), Some("id")), argv(&["bash"]));
    assert_eq!(shell_argv(&argv(&["rsh"]), None), argv(&["rsh"]));
    assert_eq!(shell_argv(&[], Some("id")), argv(&[]));
}

#[test]
fn startup_commands_are_typed() {
    assert_eq!(startup_lines(Some("ls,  cd /x , a,b")), vec!["ls\r", "cd /x\r", "a,b\r"]);
    assert_eq!(startup_lines(Some("")), Vec::<String>::new());
    assert_eq!(startup_lines(None), Vec::<String>::new());
    assert_eq!(startup_lines(Some(", ")), vec!["\r", "\r"]);
}
