use ssh_connections::command::{
    build_invocation, copy_args, Action, Invocation, export_line, rewrite_copy_path, tunnel_args, use_args, TunnelMode, TunnelModeError,
};
use ssh_connections::config::parse_ssh_config;
use ssh_connections::filter::{filter_table_rows, keep_flagged_rows, FilterError};
use ssh_connections::mutate::{delete_entry, delete_index, entry_text, is_confirmed, text_to_write};
use ssh_connections::select::{get_connection_name, SelectionError};
use ssh_connections::text::decimal_string;

const EXAMPLE: &str = "Host alpha\n    HostName 10.0.0.5\n    user root\nHost beta\n    HostName 10.0.0.6\n    user admin\n";

fn row(cells: &[&str]) -> Vec<String> {
    cells.iter().map(|c| c.to_string()).collect()
}

fn header() -> Vec<String> {
    row(&["Index", "HostName", "Host", "User"])
}

fn strings(v: &[&str]) -> Vec<String> {
    v.iter().map(|c| c.to_string()).collect()
}

#[test]
fn example_parses_to_header_and_two_records() {
    let table = parse_ssh_config(EXAMPLE);
    assert_eq!(
        table,
        vec![
            header(),
            row(&["0", "alpha", "10.0.0.5", "root"]),
            row(&["1", "beta", "10.0.0.6", "admin"]),
        ]
    );
}

#[test]
fn example_resolves_index_and_rejects_unknown_alias() {
    let table = parse_ssh_config(EXAMPLE);
    assert_eq!(get_connection_name(table.clone(), &"1".to_string()), Ok("beta".to_string()));
    assert_eq!(
        get_connection_name(table, &"gamma".to_string()),
        Err(SelectionError::NoSuchConnection { name: "gamma".to_string() })
    );
}

#[test]
fn empty_text_gives_only_the_header() {
    assert_eq!(parse_ssh_config(""), vec![header()]);
}

#[test]
fn parse_keeps_order_and_numbers_rows() {
    let text = "Host a\nHost b\nHost c\nHost d\n";
    let table = parse_ssh_config(text);
    assert_eq!(table.len(), 5);
    for (k, name) in ["a", "b", "c", "d"].iter().enumerate() {
        assert_eq!(table[k + 1][0], k.to_string());
        assert_eq!(table[k + 1][1], name.to_string());
    }
}

#[test]
fn parse_last_value_wins_and_leading_lines_are_ignored() {
    let text = "user nobody\nHostName early\n  Host  web  \n\tHostName one\n    HostName two\n    user u1\n    user u2\n    Port 22\n";
    let table = parse_ssh_config(text);
    assert_eq!(table, vec![header(), row(&["0", "web", "two", "u2"])]);
}

#[test]
fn parse_reads_crlf_lines_and_a_last_line_without_ending() {
    let text = "Host x\r\n    HostName h\r\n    user u";
    let table = parse_ssh_config(text);
    assert_eq!(table, vec![header(), row(&["0", "x", "h", "u"])]);
}

#[test]
fn parse_is_case_sensitive_on_directives() {
    let text = "host a\nHost b\n    hostname x\n    User y\n";
    let table = parse_ssh_config(text);
    assert_eq!(table, vec![header(), row(&["0", "b", "", ""])]);
}

#[test]
fn resolve_each_record_by_index_and_by_alias() {
    let table = parse_ssh_config(EXAMPLE);
    assert_eq!(get_connection_name(table.clone(), &"0".to_string()), Ok("alpha".to_string()));
    assert_eq!(get_connection_name(table.clone(), &"alpha".to_string()), Ok("alpha".to_string()));
    assert_eq!(get_connection_name(table.clone(), &"beta".to_string()), Ok("beta".to_string()));
    assert_eq!(get_connection_name(table, &" 1 ".to_string()), Ok("beta".to_string()));
}

#[test]
fn resolve_index_equal_to_count_gives_last_record() {
    let table = parse_ssh_config(EXAMPLE);
    assert_eq!(get_connection_name(table, &"2".to_string()), Ok("beta".to_string()));
}

#[test]
fn resolve_index_past_count_fails() {
    let table = parse_ssh_config(EXAMPLE);
    assert_eq!(
        get_connection_name(table.clone(), &"3".to_string()),
        Err(SelectionError::IndexOutOfRange { index: 3, count: 2 })
    );
    assert_eq!(
        get_connection_name(table, &"100".to_string()),
        Err(SelectionError::IndexOutOfRange { index: 100, count: 2 })
    );
}

#[test]
fn resolve_on_empty_table_fails() {
    let table = parse_ssh_config("");
    assert_eq!(
        get_connection_name(table, &"0".to_string()),
        Err(SelectionError::IndexOutOfRange { index: 0, count: 0 })
    );
}

#[test]
fn resolve_alias_never_matches_partially() {
    let table = parse_ssh_config(EXAMPLE);
    for sel in ["alph", "alpha ", "Alpha", "bet", "HostName", "-1"] {
        assert_eq!(
            get_connection_name(table.clone(), &sel.to_string()),
            Err(SelectionError::NoSuchConnection { name: sel.to_string() })
        );
    }
}

#[test]
fn resolve_index_with_plus_sign_and_huge_number() {
    let table = parse_ssh_config(EXAMPLE);
    assert_eq!(get_connection_name(table.clone(), &"+1".to_string()), Ok("beta".to_string()));
    let huge = "99999999999999999999999999".to_string();
    assert_eq!(
        get_connection_name(table, &huge),
        Err(SelectionError::NoSuchConnection { name: huge.clone() })
    );
}

#[test]
fn copy_path_rewrites_the_token() {
    assert_eq!(rewrite_copy_path("con:/tmp/a", "box1"), "box1:/tmp/a");
}

#[test]
fn copy_path_without_token_is_unchanged() {
    assert_eq!(rewrite_copy_path("/tmp/a", "box1"), "/tmp/a");
    assert_eq!(rewrite_copy_path("", "box1"), "");
    assert_eq!(rewrite_copy_path("co:n", "box1"), "co:n");
}

#[test]
fn copy_path_rewrites_every_occurrence() {
    assert_eq!(rewrite_copy_path("con:/a/con:b", "h"), "h:/a/h:b");
    assert_eq!(rewrite_copy_path("ccon:con:", "h"), "ch:h:");
}

#[test]
fn copy_args_rewrite_both_paths() {
    assert_eq!(copy_args("box1", "con:/etc/hosts", "./hosts"), strings(&["box1:/etc/hosts", "./hosts"]));
    assert_eq!(copy_args("box1", "a.txt", "con:~/a.txt"), strings(&["a.txt", "box1:~/a.txt"]));
}

#[test]
fn tunnel_local_arguments() {
    let mode = Some(TunnelMode::Local { local_port: 8080, remote_host: "10.0.0.1".to_string(), remote_port: 80 });
    assert_eq!(
        tunnel_args("box1", &mode, &vec![]),
        Ok(strings(&["-L", "8080", ":", "10.0.0.1", ":", "80", "box1"]))
    );
    assert_eq!(
        tunnel_args("box1", &mode, &strings(&["-N", "-v"])),
        Ok(strings(&["-L", "8080", ":", "10.0.0.1", ":", "80", "box1", "-N", "-v"]))
    );
}

#[test]
fn tunnel_remote_arguments() {
    let mode = Some(TunnelMode::Remote { local_port: 3000, local_host: "127.0.0.1".to_string(), remote_port: 9000 });
    assert_eq!(
        tunnel_args("box1", &mode, &vec![]),
        Ok(strings(&["-R", "9000", ":", "127.0.0.1", ":", "3000", "box1"]))
    );
}

#[test]
fn tunnel_dynamic_arguments() {
    let mode = Some(TunnelMode::Dynamic { local_port: 1080 });
    assert_eq!(tunnel_args("box1", &mode, &vec![]), Ok(strings(&["-D", "1080", "box1"])));
}

#[test]
fn tunnel_without_mode_fails() {
    let r = tunnel_args("box1", &None, &vec![]);
    assert_eq!(r, Err(TunnelModeError::new("no tunnel mode selected")));
    let e = r.unwrap_err();
    assert_eq!(e.message, "no tunnel mode selected");
    assert_eq!(e.display_text(), "Tunnel Mode Error: no tunnel mode selected");
}

#[test]
fn tunnel_mode_error_keeps_its_message() {
    let e = TunnelModeError::new("bad");
    assert_eq!(e.message, "bad");
    assert_eq!(e.display_text(), "Tunnel Mode Error: bad");
}

#[test]
fn use_arguments_put_the_host_first() {
    assert_eq!(use_args("alpha", &vec![]), strings(&["alpha"]));
    assert_eq!(use_args("alpha", &strings(&["-p", "2222"])), strings(&["alpha", "-p", "2222"]));
}

#[test]
fn export_line_joins_with_spaces() {
    assert_eq!(export_line("ssh", "alpha", &strings(&["-p", "2222"])), "ssh alpha -p 2222");
    assert_eq!(export_line("ssh", "alpha", &vec![]), "ssh alpha ");
    assert_eq!(export_line("mosh", "beta", &strings(&["x"])), "mosh beta x");
}

#[test]
fn entry_text_has_every_line() {
    let t = entry_text("gamma", "10.0.0.7", "me", 2222, &Some("~/.ssh/id".to_string()), true);
    assert_eq!(
        t,
        "\nHost gamma\n    HostName 10.0.0.7\n    user me\n    port 2222\n    IdentityFile ~/.ssh/id\n    IdentityFilesOnly yes\n"
    );
}

#[test]
fn entry_text_without_options() {
    let t = entry_text("gamma", "10.0.0.7", "me", 22, &None, false);
    assert_eq!(t, "\nHost gamma\n    HostName 10.0.0.7\n    user me\n    port 22\n");
}

#[test]
fn appended_entry_parses_as_a_new_record() {
    let mut text = EXAMPLE.to_string();
    text.push_str(&entry_text("gamma", "10.0.0.7", "me", 22, &None, false));
    let table = parse_ssh_config(&text);
    assert_eq!(table.len(), 4);
    assert_eq!(table[3], row(&["2", "gamma", "10.0.0.7", "me"]));
}

#[test]
fn delete_removes_one_block() {
    let d = delete_entry(EXAMPLE, 0);
    assert_eq!(d.host, Some("alpha".to_string()));
    assert_eq!(d.text, "Host beta\n    HostName 10.0.0.6\n    user admin\n");
    let d = delete_entry(EXAMPLE, 1);
    assert_eq!(d.host, Some("beta".to_string()));
    assert_eq!(d.text, "Host alpha\n    HostName 10.0.0.5\n    user root\n");
}

#[test]
fn delete_keeps_lines_outside_the_block() {
    let text = "# top\nHost a\n  HostName x\n\nHost b\n  user y\n\nHost c\n";
    let d = delete_entry(text, 1);
    assert_eq!(d.host, Some("b".to_string()));
    assert_eq!(d.text, "# top\nHost a\n  HostName x\n\nHost c\n");
}

#[test]
fn delete_of_missing_index_changes_nothing() {
    let d = delete_entry(EXAMPLE, 5);
    assert_eq!(d.host, None);
    assert_eq!(d.text, EXAMPLE);
    assert_eq!(text_to_write(&d, "yes"), None);
}

#[test]
fn delete_after_append_restores_the_text() {
    let mut text = EXAMPLE.to_string();
    text.push_str(&entry_text("gamma", "10.0.0.7", "me", 22, &Some("k".to_string()), true));
    let d = delete_entry(&text, 2);
    assert_eq!(d.host, Some("gamma".to_string()));
    assert_eq!(d.text, format!("{}\n", EXAMPLE));
    assert_eq!(parse_ssh_config(&d.text), parse_ssh_config(EXAMPLE));
}

#[test]
fn delete_needs_exactly_yes() {
    let d = delete_entry(EXAMPLE, 0);
    for answer in ["no", "y", "YES", "yes please", "", " yes", "yes ", "\tyes\n"] {
        assert_eq!(text_to_write(&d, answer), None);
    }
    assert_eq!(text_to_write(&d, "yes\n"), Some(d.text.clone()));
    assert_eq!(text_to_write(&d, "yes"), Some(d.text.clone()));
}

#[test]
fn confirmation_drops_only_the_line_ending() {
    assert!(!is_confirmed("  yes \n"));
    assert!(!is_confirmed(" yes"));
    assert!(!is_confirmed("yes  "));
    assert!(!is_confirmed("\tyes"));
    assert!(!is_confirmed("yess"));
    assert!(!is_confirmed("yes\r"));
    assert!(is_confirmed("yes"));
    assert!(is_confirmed("yes\n"));
    assert!(is_confirmed("yes\r\n"));
}

#[test]
fn delete_index_reads_unsigned_integers() {
    assert_eq!(delete_index(" 3 "), Some(3));
    assert_eq!(delete_index("x"), None);
    assert_eq!(delete_index("-1"), None);
    assert_eq!(delete_index(""), None);
}

#[test]
fn decimal_strings() {
    assert_eq!(decimal_string(0), "0");
    assert_eq!(decimal_string(65535), "65535");
    assert_eq!(decimal_string(u64::MAX), u64::MAX.to_string());
}

#[test]
fn filter_keeps_header_and_matching_rows() {
    let table = parse_ssh_config(EXAMPLE);
    let shown = filter_table_rows(&table, &Some("alp".to_string())).unwrap();
    assert_eq!(shown, vec![header(), row(&["0", "alpha", "10.0.0.5", "root"])]);
    let shown = filter_table_rows(&table, &Some("10.0.0".to_string())).unwrap();
    assert_eq!(shown, table);
    let shown = filter_table_rows(&table, &Some("nothing".to_string())).unwrap();
    assert_eq!(shown, vec![header()]);
}

#[test]
fn filter_without_pattern_keeps_everything() {
    let table = parse_ssh_config(EXAMPLE);
    assert_eq!(filter_table_rows(&table, &None).unwrap(), table);
}

#[test]
fn filter_rejects_invalid_pattern() {
    let table = parse_ssh_config(EXAMPLE);
    assert_eq!(
        filter_table_rows(&table, &Some("(".to_string())),
        Err(FilterError::InvalidPattern { pattern: ".*(.*".to_string() })
    );
}

#[test]
fn invocation_of_each_action() {
    let use_action = Action::Use { program: "ssh".to_string(), args: strings(&["-v"]) };
    match build_invocation("alpha", &use_action) {
        Ok(Invocation::Spawn { program, args }) => {
            assert_eq!(program, "ssh");
            assert_eq!(args, strings(&["alpha", "-v"]));
        }
        _ => panic!("expected a process"),
    }
    let export = Action::Export { program: "ssh".to_string(), args: strings(&["-v"]) };
    match build_invocation("alpha", &export) {
        Ok(Invocation::Clipboard { text }) => assert_eq!(text, "ssh alpha -v"),
        _ => panic!("expected a clipboard line"),
    }
    let copy = Action::Copy { program: "scp".to_string(), from: "con:/a".to_string(), to: "b".to_string() };
    match build_invocation("alpha", &copy) {
        Ok(Invocation::Spawn { program, args }) => {
            assert_eq!(program, "scp");
            assert_eq!(args, strings(&["alpha:/a", "b"]));
        }
        _ => panic!("expected a process"),
    }
    let tunnel = Action::Tunnel {
        program: "ssh".to_string(),
        mode: Some(TunnelMode::Dynamic { local_port: 9050 }),
        args: vec![],
    };
    match build_invocation("alpha", &tunnel) {
        Ok(Invocation::Spawn { program, args }) => {
            assert_eq!(program, "ssh");
            assert_eq!(args, strings(&["-D", "9050", "alpha"]));
        }
        _ => panic!("expected a process"),
    }
    let no_mode = Action::Tunnel { program: "ssh".to_string(), mode: None, args: vec![] };
    match build_invocation("alpha", &no_mode) {
        Err(e) => assert_eq!(e.message, "no tunnel mode selected"),
        _ => panic!("expected an error"),
    }
}

#[test]
fn delete_keeps_line_endings_as_they_are() {
    let text = "# top\r\nHost a\r\n  HostName x\r\nHost b\r\n  user y";
    let d = delete_entry(text, 0);
    assert_eq!(d.host, Some("a".to_string()));
    assert_eq!(d.text, "# top\r\nHost b\r\n  user y");
    let d = delete_entry(text, 1);
    assert_eq!(d.host, Some("b".to_string()));
    assert_eq!(d.text, "# top\r\nHost a\r\n  HostName x\r\n");
}

#[test]
fn delete_of_missing_index_keeps_text_without_final_newline() {
    let text = "Host a\r\n  user y";
    let d = delete_entry(text, 1);
    assert_eq!(d.host, None);
    assert_eq!(d.text, text);
}

#[test]
fn delete_after_append_to_text_without_final_newline() {
    let text = "Host a\n    HostName x";
    let mut appended = text.to_string();
    appended.push_str(&entry_text("b", "y", "u", 22, &None, false));
    let d = delete_entry(&appended, 1);
    assert_eq!(d.host, Some("b".to_string()));
    assert_eq!(d.text, format!("{}\n", text));
}

#[test]
fn keep_flagged_rows_keeps_header_and_flagged_rows() {
    let table = vec![header(), row(&["0", "a", "", ""]), row(&["1", "b", "", ""]), row(&["2", "c", "", ""])];
    assert_eq!(
        keep_flagged_rows(&table, &vec![false, true, false, true]),
        vec![header(), row(&["0", "a", "", ""]), row(&["2", "c", "", ""])]
    );
    assert_eq!(keep_flagged_rows(&table, &vec![false, false, false, false]), vec![header()]);
    assert_eq!(keep_flagged_rows(&vec![], &vec![]), Vec::<Vec<String>>::new());
}
