use sentinel::paths::{is_watchable_rb, root_for_of, sig_path_of};

fn parts(p: &[&str]) -> Vec<String> {
    p.iter().map(|s| s.to_string()).collect()
}

#[test]
fn sig_path_mirrors_place_under_root() {
    let output = parts(&["sig", "generated"]);
    let root = parts(&["/", "home", "app"]);
    let rb = parts(&["/", "home", "app", "models", "user.rb"]);
    assert_eq!(sig_path_of(&output, Some(&root), &rb), parts(&["sig", "generated", "models", "user.rbs"]));
}

#[test]
fn sig_path_falls_back_to_file_name() {
    let output = parts(&["sig", "generated"]);
    let root = parts(&["/", "home", "app"]);
    let rb = parts(&["/", "elsewhere", "lib", "tool.rb"]);
    assert_eq!(sig_path_of(&output, Some(&root), &rb), parts(&["sig", "generated", "tool.rbs"]));
    assert_eq!(sig_path_of(&output, None, &rb), parts(&["sig", "generated", "tool.rbs"]));
}

#[test]
fn sig_path_extension_rules() {
    let output = parts(&[".", "sig"]);
    assert_eq!(sig_path_of(&output, None, &parts(&["a.b.rb"])), parts(&[".", "sig", "a.b.rbs"]));
    assert_eq!(sig_path_of(&output, None, &parts(&["Rakefile"])), parts(&[".", "sig", "Rakefile.rbs"]));
    assert_eq!(sig_path_of(&output, None, &parts(&[".rb"])), parts(&[".", "sig", ".rb.rbs"]));
    // a path with no file name adds nothing and keeps the output's own name
    assert_eq!(sig_path_of(&output, None, &parts(&["app", ".."])), parts(&[".", "sig.rbs"]));
}

#[test]
fn sig_path_of_root_itself() {
    let output = parts(&["sig", "generated"]);
    let root = parts(&["app"]);
    assert_eq!(sig_path_of(&output, Some(&root), &root), parts(&["sig", "generated.rbs"]));
}

#[test]
fn root_for_picks_first_containing_root() {
    let roots = vec![parts(&["/", "w", "app"]), parts(&["/", "w", "lib"]), parts(&["/", "w"])];
    let p = parts(&["/", "w", "lib", "x.rb"]);
    assert_eq!(root_for_of(&roots, &p), Some(&roots[1]));
    let q = parts(&["/", "w", "other.rb"]);
    assert_eq!(root_for_of(&roots, &q), Some(&roots[2]));
    let r = parts(&["/", "elsewhere", "y.rb"]);
    assert_eq!(root_for_of(&roots, &r), None);
    // components are compared whole: "/w/application" is not under "/w/app"
    let s = parts(&["/", "w", "application", "z.rb"]);
    assert_eq!(root_for_of(&roots[..1].to_vec(), &s), None);
}

#[test]
fn watchable_names() {
    assert!(is_watchable_rb("user.rb"));
    assert!(is_watchable_rb("a.b.rb"));
    assert!(!is_watchable_rb("user.rbs"));
    assert!(!is_watchable_rb("user.rb~"));
    assert!(!is_watchable_rb("user~.rb"));
    assert!(!is_watchable_rb(".!1234!user.rb"));
    assert!(!is_watchable_rb(".user.rb"));
    assert!(!is_watchable_rb("rb"));
    assert!(!is_watchable_rb(".rb"));
}
