use jterm1::process::{
    foreground_pgid, foreground_process_name, get_process_group_id, match_restorable_command,
    process_exists, read_ppid, read_proc_cmdline, signals_group, Signal, Stage, Walk,
};

fn args(words: &[&str]) -> Vec<String> {
    words.iter().map(|w| w.to_string()).collect()
}

fn restorable(words: &[&str]) -> Option<String> {
    match_restorable_command(&args(words))
}

#[test]
fn remote_shells_can_be_restored() {
    assert_eq!(restorable(&["/usr/bin/ssh", "host", "-p", "22"]).as_deref(), Some("/usr/bin/ssh host -p 22"));
    assert_eq!(restorable(&["mosh", "h"]).as_deref(), Some("mosh h"));
}

#[test]
fn nix_shells_can_be_restored() {
    assert_eq!(restorable(&["nix", "develop", ".#x"]).as_deref(), Some("nix develop .#x"));
    assert_eq!(restorable(&["nix", "build"]), None);
    assert_eq!(
        restorable(&["bash", "--rcfile", "/tmp/nix-shell.Ab12"]).as_deref(),
        Some("nix develop")
    );
    assert_eq!(restorable(&["zsh", "/tmp/nix-shell-1/rc"]).as_deref(), Some("nix develop"));
    assert_eq!(restorable(&["bash", "-l"]), None);
}

#[test]
fn containers_can_be_restored() {
    assert_eq!(restorable(&["docker", "exec", "-it", "c", "sh"]).as_deref(), Some("docker exec -it c sh"));
    assert_eq!(restorable(&["podman", "compose", "exec", "c"]).as_deref(), Some("podman compose exec c"));
    assert_eq!(restorable(&["docker", "ps"]), None);
    assert_eq!(restorable(&["docker", "compose"]), None);
}

#[test]
fn other_programs_are_not_restored() {
    assert_eq!(restorable(&["vim", "ssh"]), None);
    assert_eq!(restorable(&[]), None);
    assert_eq!(restorable(&["/"]), None);
}

#[test]
fn stat_lines_are_read_behind_the_name() {
    let stat = "12 (a b) c)) S 7 9 12 0";
    assert_eq!(read_ppid(12, Some(stat)), Some(7));
    assert_eq!(get_process_group_id(12, Some(stat)), Some(9));
    assert_eq!(read_ppid(0, Some(stat)), None);
    assert_eq!(read_ppid(12, None), None);
    assert_eq!(read_ppid(12, Some("12 (x) S x")), None);
    assert_eq!(get_process_group_id(12, Some("12 (x) S 3")), None);
    assert_eq!(read_ppid(12, Some("no brackets 3")), None);
}

#[test]
fn cmdlines_are_split() {
    assert_eq!(read_proc_cmdline(5, Some(b"ls\0-l\0\0x\0")), Some(args(&["ls", "-l", "x"])));
    assert_eq!(read_proc_cmdline(5, Some(b"")), None);
    assert_eq!(read_proc_cmdline(5, Some(b"\0\0")), None);
    assert_eq!(read_proc_cmdline(-1, Some(b"ls\0")), None);
    assert_eq!(read_proc_cmdline(5, Some(b"a\xff\0")), Some(args(&["a\u{fffd}"])));
}

#[test]
fn the_shell_is_not_in_the_foreground() {
    assert_eq!(foreground_pgid(3, 100, 200), Some(200));
    assert_eq!(foreground_pgid(3, 100, 100), None);
    assert_eq!(foreground_pgid(-1, 100, 200), None);
    assert_eq!(foreground_pgid(3, 100, -1), None);
    assert_eq!(foreground_process_name(Some(&args(&["/usr/bin/vim"]))).as_deref(), Some("vim"));
    assert_eq!(foreground_process_name(None), None);
}

#[test]
fn walks_find_the_first_command() {
    let mut w = Walk::start(100, Some(300));
    assert_eq!(w.next(), Some(300));
    w.step(Some(&args(&["cat"])), Some(200));
    assert_eq!(w.next(), Some(200));
    w.step(Some(&args(&["ssh", "h"])), Some(100));
    assert_eq!(w.next(), None);
    assert_eq!(w.found.as_deref(), Some("ssh h"));
}

#[test]
fn walks_end_at_the_shell() {
    let mut w = Walk::start(100, Some(300));
    w.step(None, Some(100));
    assert_eq!(w.next(), None);
    assert_eq!(w.found, None);
    assert_eq!(Walk::start(100, None).next(), None);
    let mut w = Walk::start(100, Some(300));
    w.step(None, None);
    assert_eq!(w.next(), None);
    assert_eq!(Walk::start(100, Some(1)).next(), None);
}

#[test]
fn walks_are_bounded() {
    let mut w = Walk::start(100, Some(2));
    let mut steps = 0;
    while w.next().is_some() {
        w.step(None, Some(2 + steps));
        steps += 1;
    }
    assert_eq!(steps, 16);
}

#[test]
fn endings_escalate() {
    let a = Stage::first(7);
    assert_eq!(a, Stage::Send { signal: Signal::Hangup, wait_ms: 120 });
    let b = a.next(false);
    assert_eq!(b, Stage::Send { signal: Signal::Terminate, wait_ms: 250 });
    let c = b.next(false);
    assert_eq!(c, Stage::Send { signal: Signal::Kill, wait_ms: 150 });
    assert_eq!(c.next(false), Stage::Over);
    assert_eq!(a.next(true), Stage::Over);
    assert_eq!(Stage::first(0), Stage::Over);
}

#[test]
fn signals_go_to_the_group_of_a_leader() {
    assert!(signals_group(7, true, Some(7)));
    assert!(!signals_group(7, true, Some(8)));
    assert!(!signals_group(7, false, Some(7)));
    assert!(!signals_group(7, true, None));
    assert!(process_exists(7, false, true));
    assert!(!process_exists(7, false, false));
    assert!(!process_exists(0, true, true));
}
