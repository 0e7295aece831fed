use swarm_deploy::command::build_deploy_command;
use swarm_deploy::command::command_announcement;
use swarm_deploy::command::deploy_report;
use swarm_deploy::present::list_yaml_files;
use swarm_deploy::scan::get_yaml_files;
use swarm_deploy::scan::sorted_directories;
use swarm_deploy::scan::DirListing;
use swarm_deploy::select::select_files;

fn listing(dir: &str, files: &[&str]) -> DirListing {
    DirListing { dir: dir.to_string(), files: files.iter().map(|f| f.to_string()).collect() }
}

fn three_file_tree() -> Vec<DirListing> {
    vec![
        listing("/r", &[]),
        listing("/r/a", &["/r/a/one.yaml", "/r/a/two.yaml"]),
        listing("/r/b", &["/r/b/three.yaml"]),
    ]
}

#[test]
fn scan_keeps_only_yaml_files() {
    let listings = vec![listing(
        "/r/a",
        &["/r/a/one.yaml", "/r/a/notes.txt", "/r/a/.yaml", "/r/a/two.yml"],
    )];
    let m = get_yaml_files(&listings);
    let dirs = sorted_directories(&m);
    assert_eq!(dirs.len(), 1);
    assert_eq!(dirs[0].dir, "/r/a");
    assert_eq!(dirs[0].files, vec!["/r/a/one.yaml".to_string()]);
}

#[test]
fn scan_sorts_files_within_a_directory() {
    let listings = vec![listing("/r", &["/r/zeta.yaml", "/r/alpha.yaml", "/r/mid.yaml"])];
    let m = get_yaml_files(&listings);
    let dirs = sorted_directories(&m);
    assert_eq!(
        dirs[0].files,
        vec!["/r/alpha.yaml".to_string(), "/r/mid.yaml".to_string(), "/r/zeta.yaml".to_string()]
    );
}

#[test]
fn directories_come_out_in_lexicographic_order() {
    let listings = vec![
        listing("/r/c", &["/r/c/x.yaml"]),
        listing("/r/a", &["/r/a/y.yaml"]),
        listing("/r/b", &["/r/b/z.yaml"]),
    ];
    let m = get_yaml_files(&listings);
    let dirs = sorted_directories(&m);
    let names: Vec<&str> = dirs.iter().map(|e| e.dir.as_str()).collect();
    assert_eq!(names, vec!["/r/a", "/r/b", "/r/c"]);
}

#[test]
fn numbering_is_stable_across_walk_orders() {
    let first = three_file_tree();
    let second = vec![
        listing("/r/b", &["/r/b/three.yaml"]),
        listing("/r/a", &["/r/a/two.yaml", "/r/a/one.yaml"]),
        listing("/r", &[]),
    ];
    let m1 = get_yaml_files(&first);
    let m2 = get_yaml_files(&second);
    let (lines1, all1) = list_yaml_files(&m1, "/r");
    let (lines2, all2) = list_yaml_files(&m2, "/r");
    assert_eq!(lines1, lines2);
    assert_eq!(all1, all2);
}

#[test]
fn presenting_numbers_files_across_directories() {
    let m = get_yaml_files(&three_file_tree());
    let (lines, all) = list_yaml_files(&m, "/r");
    assert_eq!(
        all,
        vec!["a/one.yaml".to_string(), "a/two.yaml".to_string(), "b/three.yaml".to_string()]
    );
    let expected_lines = vec![
        "/r/a".to_string(),
        " 1. \u{1b}[33mone\u{1b}[0m".to_string(),
        " 2. \u{1b}[33mtwo\u{1b}[0m".to_string(),
        "".to_string(),
        "/r/b".to_string(),
        " 3. \u{1b}[33mthree\u{1b}[0m".to_string(),
        "".to_string(),
    ];
    assert_eq!(lines, expected_lines);
}

#[test]
fn empty_directories_are_skipped() {
    let listings = vec![listing("/r", &[]), listing("/r/empty", &[])];
    let m = get_yaml_files(&listings);
    let (lines, all) = list_yaml_files(&m, "/r");
    assert!(lines.is_empty());
    assert!(all.is_empty());
}

#[test]
fn scenario_single_numeric_choice() {
    let m = get_yaml_files(&three_file_tree());
    let (_, all) = list_yaml_files(&m, "/r");
    let sel = select_files("2", &all);
    assert_eq!(sel.paths, vec!["a/two.yaml".to_string()]);
    let cmd = build_deploy_command("mystack", &sel);
    assert_eq!(
        cmd.args,
        vec![
            "stack".to_string(),
            "deploy".to_string(),
            "-c".to_string(),
            "a/two.yaml".to_string(),
            "mystack".to_string(),
            "--detach=false".to_string(),
            "--with-registry-auth".to_string(),
        ]
    );
    assert_eq!(
        cmd.display,
        "docker stack deploy -c a/two.yaml mystack --detach=false --with-registry-auth"
    );
    assert_eq!(cmd.program, "docker");
}

#[test]
fn scenario_sentinel_selects_everything() {
    let m = get_yaml_files(&three_file_tree());
    let (_, all) = list_yaml_files(&m, "/r");
    let sel = select_files("0", &all);
    assert_eq!(sel.len(), 3);
    for p in &all {
        assert!(sel.contains_path(p));
    }
}

#[test]
fn scenario_invalid_tokens_build_bare_command() {
    let m = get_yaml_files(&three_file_tree());
    let (_, all) = list_yaml_files(&m, "/r");
    let sel = select_files("5 abc", &all);
    assert_eq!(sel.len(), 0);
    let cmd = build_deploy_command("mystack", &sel);
    assert_eq!(
        cmd.args,
        vec![
            "stack".to_string(),
            "deploy".to_string(),
            "mystack".to_string(),
            "--detach=false".to_string(),
            "--with-registry-auth".to_string(),
        ]
    );
    assert_eq!(cmd.display, "docker stack deploy  mystack --detach=false --with-registry-auth");
}

#[test]
fn announcement_paints_the_command_blue() {
    let line = command_announcement("docker stack deploy x");
    assert_eq!(line, "Running command: \u{1b}[34mdocker stack deploy x\u{1b}[0m");
}

#[test]
fn report_lines_for_both_outcomes() {
    assert_eq!(deploy_report(true, ""), "Docker stack deployed successfully.");
    assert_eq!(
        deploy_report(false, "no such stack\n"),
        "Failed to deploy stack: no such stack\n"
    );
}
