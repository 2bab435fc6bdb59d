use casbin::adapter::{load_policy_line, save_policy_text, save_policy_to_text, FileAdapter};
use casbin::enforcer::Enforcer;
use casbin::errors::CasbinError;
use casbin::model::Model;
use casbin::role_manager::RoleManager;

fn s(x: &str) -> String {
    x.to_string()
}

fn row(xs: &[&str]) -> Vec<String> {
    xs.iter().map(|x| s(x)).collect()
}

fn acl_model() -> Model {
    let mut m = Model::new();
    assert!(m.add_def("r", "r", "sub, obj, act"));
    assert!(m.add_def("p", "p", "sub, obj, act"));
    assert!(m.add_def("e", "e", "some(where (p.eft == allow))"));
    assert!(m.add_def("m", "m", "r.sub == p.sub && r.obj == p.obj && r.act == p.act"));
    m
}

fn rbac_model() -> Model {
    let mut m = Model::new();
    assert!(m.add_def("r", "r", "sub, obj, act"));
    assert!(m.add_def("p", "p", "sub, obj, act"));
    assert!(m.add_def("g", "g", "_, _"));
    assert!(m.add_def("e", "e", "some(where (p.eft == allow))"));
    assert!(m.add_def("m", "m", "g(r.sub, p.sub) && r.obj == p.obj && r.act == p.act"));
    m
}

fn eft_model(effect: &str) -> Model {
    let mut m = Model::new();
    assert!(m.add_def("r", "r", "sub, obj, act"));
    assert!(m.add_def("p", "p", "sub, obj, act, eft"));
    assert!(m.add_def("e", "e", effect));
    assert!(m.add_def("m", "m", "r.sub == p.sub && r.obj == p.obj && r.act == p.act"));
    m
}

#[test]
fn acl_allows_the_stated_row_and_denies_others() {
    let mut e = Enforcer::new(acl_model()).unwrap();
    assert!(e.add_policy(row(&["alice", "data1", "read"])));
    assert_eq!(e.enforce(&row(&["alice", "data1", "read"])).unwrap(), true);
    assert_eq!(e.enforce(&row(&["bob", "data1", "read"])).unwrap(), false);
    assert_eq!(e.enforce(&row(&["alice", "data1", "write"])).unwrap(), false);
}

#[test]
fn rbac_grants_through_a_role() {
    let mut e = Enforcer::new(rbac_model()).unwrap();
    assert!(e.add_grouping_policy(row(&["alice", "admin"])));
    assert!(e.add_policy(row(&["admin", "data2", "read"])));
    e.build_role_links();
    assert_eq!(e.enforce(&row(&["alice", "data2", "read"])).unwrap(), true);
    assert_eq!(e.enforce(&row(&["bob", "data2", "read"])).unwrap(), false);
}

#[test]
fn role_links_are_transitive_until_deleted() {
    let mut rm = RoleManager::new();
    rm.add_link("a", "b", None);
    rm.add_link("b", "c", None);
    assert!(rm.has_link("a", "c", None));
    assert!(rm.has_link("a", "b", None));
    rm.delete_link("a", "b", None);
    assert!(!rm.has_link("a", "c", None));
    assert!(rm.has_link("b", "c", None));
}

#[test]
fn has_link_terminates_on_cycles() {
    let mut rm = RoleManager::new();
    rm.add_link("a", "b", None);
    rm.add_link("b", "a", None);
    assert!(rm.has_link("a", "b", None));
    assert!(!rm.has_link("a", "c", None));
}

#[test]
fn domain_links_are_isolated() {
    let mut rm = RoleManager::new();
    rm.add_link("a", "b", Some("domain1"));
    assert!(rm.has_link("a", "b", Some("domain1")));
    assert!(!rm.has_link("a", "b", Some("domain2")));
    assert!(!rm.has_link("a", "b", None));
}

#[test]
fn unknown_names_are_isolated_nodes() {
    let rm = RoleManager::new();
    assert!(!rm.has_link("nobody", "nothing", None));
    assert!(rm.has_link("self", "self", None));
    assert!(rm.get_roles("nobody", None).is_empty());
    assert!(rm.get_users("nobody", None).is_empty());
}

#[test]
fn get_roles_and_users_are_one_hop_and_deduplicated() {
    let mut rm = RoleManager::new();
    rm.add_link("alice", "admin", None);
    rm.add_link("alice", "admin", None);
    rm.add_link("alice", "editor", None);
    rm.add_link("admin", "root", None);
    rm.add_link("bob", "admin", None);
    let roles = rm.get_roles("alice", None);
    assert_eq!(roles.len(), 2);
    assert!(roles.contains(&s("admin")));
    assert!(roles.contains(&s("editor")));
    assert!(!roles.contains(&s("root")));
    let users = rm.get_users("admin", None);
    assert_eq!(users.len(), 2);
    assert!(users.contains(&s("alice")));
    assert!(users.contains(&s("bob")));
}

#[test]
fn add_policy_twice_inserts_once() {
    let mut e = Enforcer::new(acl_model()).unwrap();
    assert_eq!(e.add_policy(row(&["alice", "data1", "read"])), true);
    assert_eq!(e.add_policy(row(&["alice", "data1", "read"])), false);
    let rows = e.model.get_policy("p", "p").unwrap();
    assert_eq!(rows.len(), 1);
    assert_eq!(rows[0], row(&["alice", "data1", "read"]));
}

#[test]
fn add_policy_rejects_wrong_arity() {
    let mut e = Enforcer::new(acl_model()).unwrap();
    assert_eq!(e.add_policy(row(&["alice", "data1"])), false);
    assert_eq!(e.model.get_policy("p", "p").unwrap().len(), 0);
}

#[test]
fn deny_overrides_allow_whatever_the_order() {
    let effect = "some(where (p.eft == allow)) && !some(where (p.eft == deny))";
    let mut e = Enforcer::new(eft_model(effect)).unwrap();
    assert!(e.add_policy(row(&["alice", "data1", "read", "allow"])));
    assert!(e.add_policy(row(&["alice", "data1", "read", "deny"])));
    assert_eq!(e.enforce(&row(&["alice", "data1", "read"])).unwrap(), false);

    let mut e2 = Enforcer::new(eft_model(effect)).unwrap();
    assert!(e2.add_policy(row(&["alice", "data1", "read", "deny"])));
    assert!(e2.add_policy(row(&["alice", "data1", "read", "allow"])));
    assert_eq!(e2.enforce(&row(&["alice", "data1", "read"])).unwrap(), false);
    assert_eq!(e2.enforce(&row(&["bob", "data1", "read"])).unwrap(), false);
}

#[test]
fn allow_and_deny_still_needs_an_allow() {
    let effect = "some(where (p.eft == allow)) && !some(where (p.eft == deny))";
    let mut e = Enforcer::new(eft_model(effect)).unwrap();
    assert!(e.add_policy(row(&["alice", "data1", "read", "allow"])));
    assert_eq!(e.enforce(&row(&["alice", "data1", "read"])).unwrap(), true);
    assert_eq!(e.enforce(&row(&["bob", "data1", "read"])).unwrap(), false);
}

#[test]
fn no_deny_rule_is_permissive_on_empty_policy() {
    let e = Enforcer::new(eft_model("!some(where (p.eft == deny))")).unwrap();
    assert_eq!(e.enforce(&row(&["alice", "data1", "read"])).unwrap(), true);
    let e2 = Enforcer::new(acl_model()).unwrap();
    assert_eq!(e2.enforce(&row(&["alice", "data1", "read"])).unwrap(), false);
}

#[test]
fn priority_takes_the_first_decisive_match() {
    let mut e = Enforcer::new(eft_model("priority(p.eft) || deny")).unwrap();
    assert!(e.add_policy(row(&["alice", "data1", "read", "deny"])));
    assert!(e.add_policy(row(&["alice", "data1", "read", "allow"])));
    assert_eq!(e.enforce(&row(&["alice", "data1", "read"])).unwrap(), false);

    let mut e2 = Enforcer::new(eft_model("priority(p.eft) || deny")).unwrap();
    assert!(e2.add_policy(row(&["bob", "data1", "read", "allow"])));
    assert!(e2.add_policy(row(&["bob", "data1", "read", "deny"])));
    assert_eq!(e2.enforce(&row(&["bob", "data1", "read"])).unwrap(), true);
    assert_eq!(e2.enforce(&row(&["carol", "data1", "read"])).unwrap(), false);
}

#[test]
fn batch_load_with_auto_build_off_needs_one_rebuild() {
    let mut e = Enforcer::new(rbac_model()).unwrap();
    e.enable_auto_build_role_links(false);
    let n = 40;
    for i in 0..n {
        assert!(e.add_grouping_policy(row(&[&format!("user{}", i), "admin"])));
    }
    for i in 0..n {
        let (_, rm) = &e.role_managers[0];
        assert!(!rm.has_link(&format!("user{}", i), "admin", None));
    }
    e.build_role_links();
    for i in 0..n {
        let (_, rm) = &e.role_managers[0];
        assert!(rm.has_link(&format!("user{}", i), "admin", None));
    }
}

#[test]
fn enforce_rejects_wrong_request_arity() {
    let e = Enforcer::new(acl_model()).unwrap();
    let r = e.enforce(&row(&["alice", "data1"]));
    assert!(matches!(r, Err(CasbinError::ParsingFailure(_))));
}

#[test]
fn unknown_matcher_function_is_an_error_not_a_decision() {
    let mut m = Model::new();
    assert!(m.add_def("r", "r", "sub, obj, act"));
    assert!(m.add_def("p", "p", "sub, obj, act"));
    assert!(m.add_def("e", "e", "some(where (p.eft == allow))"));
    assert!(m.add_def("m", "m", "globMatch(r.obj, p.obj)"));
    let mut e = Enforcer::new(m).unwrap();
    assert!(e.add_policy(row(&["alice", "data*", "read"])));
    let r = e.enforce(&row(&["alice", "data1", "read"]));
    assert!(matches!(r, Err(CasbinError::ParsingFailure(_))));
}

#[test]
fn key_match_handles_star_patterns_in_the_matcher() {
    let mut m = Model::new();
    assert!(m.add_def("r", "r", "sub, obj, act"));
    assert!(m.add_def("p", "p", "sub, obj, act"));
    assert!(m.add_def("e", "e", "some(where (p.eft == allow))"));
    assert!(m.add_def(
        "m",
        "m",
        "r.sub == p.sub && keyMatch(r.obj, p.obj) && r.act == p.act"
    ));
    let mut e = Enforcer::new(m).unwrap();
    assert!(e.add_policy(row(&["alice", "/data/*", "read"])));
    assert!(e.add_policy(row(&["alice", "/exact", "write"])));
    assert_eq!(e.enforce(&row(&["alice", "/data/1", "read"])).unwrap(), true);
    assert_eq!(e.enforce(&row(&["alice", "/data/", "read"])).unwrap(), true);
    assert_eq!(e.enforce(&row(&["alice", "/other/1", "read"])).unwrap(), false);
    assert_eq!(e.enforce(&row(&["alice", "/exact", "write"])).unwrap(), true);
    assert_eq!(e.enforce(&row(&["alice", "/exact2", "write"])).unwrap(), false);
}

#[test]
fn unrecognized_effect_text_is_rejected() {
    let mut m = Model::new();
    assert!(m.add_def("r", "r", "sub, obj, act"));
    assert!(m.add_def("p", "p", "sub, obj, act"));
    assert!(m.add_def("e", "e", "most(where (p.eft == allow))"));
    assert!(m.add_def("m", "m", "r.sub == p.sub"));
    assert!(matches!(Enforcer::new(m), Err(CasbinError::ParsingFailure(_))));
}

#[test]
fn malformed_matcher_text_is_rejected() {
    let mut m = Model::new();
    assert!(m.add_def("r", "r", "sub, obj, act"));
    assert!(m.add_def("p", "p", "sub, obj, act"));
    assert!(m.add_def("e", "e", "some(where (p.eft == allow))"));
    assert!(m.add_def("m", "m", "r.sub == p.sub &"));
    assert!(matches!(Enforcer::new(m), Err(CasbinError::ParsingFailure(_))));
}

#[test]
fn missing_sections_are_reported() {
    let m = Model::new();
    assert!(matches!(Enforcer::new(m), Err(CasbinError::Error(_))));
}

#[test]
fn matcher_supports_not_or_and_literals() {
    let mut m = Model::new();
    assert!(m.add_def("r", "r", "sub, obj, act"));
    assert!(m.add_def("p", "p", "sub, obj, act"));
    assert!(m.add_def("e", "e", "some(where (p.eft == allow))"));
    assert!(m.add_def("m", "m", "(r.sub == p.sub || r.sub == \"root\") && !(r.act != p.act)"));
    let mut e = Enforcer::new(m).unwrap();
    assert!(e.add_policy(row(&["alice", "data1", "read"])));
    assert_eq!(e.enforce(&row(&["root", "data1", "read"])).unwrap(), true);
    assert_eq!(e.enforce(&row(&["alice", "data1", "read"])).unwrap(), true);
    assert_eq!(e.enforce(&row(&["root", "data1", "write"])).unwrap(), false);
    assert_eq!(e.enforce(&row(&["bob", "data1", "read"])).unwrap(), false);
}

#[test]
fn remove_policy_reports_presence() {
    let mut e = Enforcer::new(acl_model()).unwrap();
    assert!(e.add_policy(row(&["alice", "data1", "read"])));
    assert_eq!(e.remove_policy(&row(&["alice", "data1", "read"])), true);
    assert_eq!(e.remove_policy(&row(&["alice", "data1", "read"])), false);
    assert_eq!(e.model.get_policy("p", "p").unwrap().len(), 0);
}

#[test]
fn remove_filtered_policy_matches_positionally_with_wildcards() {
    let mut e = Enforcer::new(acl_model()).unwrap();
    assert!(e.add_policy(row(&["alice", "data1", "read"])));
    assert!(e.add_policy(row(&["alice", "data2", "read"])));
    assert!(e.add_policy(row(&["bob", "data2", "write"])));
    assert_eq!(e.remove_filtered_policy(1, &row(&["data2", ""])), true);
    let rows = e.model.get_policy("p", "p").unwrap();
    assert_eq!(rows, vec![row(&["alice", "data1", "read"])]);
    assert_eq!(e.remove_filtered_policy(1, &row(&["data9"])), false);
}

#[test]
fn grouping_rows_with_domains_reach_the_matcher() {
    let mut m = Model::new();
    assert!(m.add_def("r", "r", "sub, dom, obj, act"));
    assert!(m.add_def("p", "p", "sub, dom, obj, act"));
    assert!(m.add_def("g", "g", "_, _, _"));
    assert!(m.add_def("e", "e", "some(where (p.eft == allow))"));
    assert!(m.add_def(
        "m",
        "m",
        "g(r.sub, p.sub, r.dom) && r.dom == p.dom && r.obj == p.obj && r.act == p.act"
    ));
    let mut e = Enforcer::new(m).unwrap();
    assert!(e.add_grouping_policy(row(&["alice", "admin", "domain1"])));
    assert!(e.add_policy(row(&["admin", "domain1", "data1", "read"])));
    assert_eq!(
        e.enforce(&row(&["alice", "domain1", "data1", "read"])).unwrap(),
        true
    );
    assert_eq!(
        e.enforce(&row(&["alice", "domain2", "data1", "read"])).unwrap(),
        false
    );
}

#[test]
fn load_policy_line_skips_blanks_comments_and_unknown_types() {
    let mut m = acl_model();
    load_policy_line(s(""), &mut m);
    load_policy_line(s("# a comment"), &mut m);
    load_policy_line(s("q, alice, data1, read"), &mut m);
    assert_eq!(m.get_policy("p", "p").unwrap().len(), 0);
    load_policy_line(s("p, alice, data1, read"), &mut m);
    load_policy_line(s("p, alice,data1,   read"), &mut m);
    let rows = m.get_policy("p", "p").unwrap();
    assert_eq!(rows, vec![row(&["alice", "data1", "read"])]);
}

#[test]
fn save_and_reload_reproduce_the_rows() {
    let mut e = Enforcer::new(rbac_model()).unwrap();
    assert!(e.add_policy(row(&["admin", "data2", "read"])));
    assert!(e.add_policy(row(&["bob", "data1", "write"])));
    assert!(e.add_grouping_policy(row(&["alice", "admin"])));
    let text = save_policy_to_text(&e.model);
    assert_eq!(
        text,
        "p, admin,data2,read\np, bob,data1,write\ng, alice,admin\n"
    );
    let mut m2 = rbac_model();
    for line in text.split('\n') {
        load_policy_line(s(line), &mut m2);
    }
    assert_eq!(
        m2.get_policy("p", "p").unwrap(),
        vec![row(&["admin", "data2", "read"]), row(&["bob", "data1", "write"])]
    );
    assert_eq!(
        m2.get_policy("g", "g").unwrap(),
        vec![row(&["alice", "admin"])]
    );
    // a second pass collapses the duplicates
    for line in text.split('\n') {
        load_policy_line(s(line), &mut m2);
    }
    assert_eq!(m2.get_policy("p", "p").unwrap().len(), 2);
    assert_eq!(m2.get_policy("g", "g").unwrap().len(), 1);
}

#[test]
fn error_messages_keep_their_three_forms() {
    assert_eq!(
        CasbinError::Io(s("boom")).message(),
        s("Casbin error, IO error: boom")
    );
    assert_eq!(CasbinError::Error("bad").message(), s("Casbin error: msg=bad"));
    assert_eq!(
        CasbinError::ParsingFailure("oops").message(),
        s("Casbin error, Parsing failure: msg=oops")
    );
}

#[test]
fn saving_needs_a_configured_path() {
    let m = acl_model();
    let a = FileAdapter::new("");
    match save_policy_text(&a, &m) {
        Err(e) => assert_eq!(
            e.message(),
            s("Casbin error: msg=save policy failed, file path is empty")
        ),
        Ok(_) => panic!("an empty path must be refused"),
    }
    let a2 = FileAdapter::new("out.csv");
    assert_eq!(save_policy_text(&a2, &m).unwrap(), s(""));
}

#[test]
fn file_adapter_remembers_its_path() {
    let a = FileAdapter::new("policies.csv");
    assert_eq!(a.file_path, s("policies.csv"));
}

#[test]
fn model_tokens_come_from_the_definition_text() {
    let m = acl_model();
    assert_eq!(m.get_tokens("r", "r").unwrap(), row(&["sub", "obj", "act"]));
    assert_eq!(m.get_tokens("p", "p").unwrap(), row(&["sub", "obj", "act"]));
    assert!(m.get_tokens("g", "g").is_none());
}

fn obj_model(pred: &str) -> Model {
    let mut m = Model::new();
    assert!(m.add_def("r", "r", "sub, obj, act"));
    assert!(m.add_def("p", "p", "sub, obj, act"));
    assert!(m.add_def("e", "e", "some(where (p.eft == allow))"));
    let text = format!("r.sub == p.sub && {}(r.obj, p.obj) && r.act == p.act", pred);
    assert!(m.add_def("m", "m", &text));
    m
}

#[test]
fn key_match2_binds_named_segments() {
    let mut e = Enforcer::new(obj_model("keyMatch2")).unwrap();
    assert!(e.add_policy(row(&["alice", "/foo/:id", "read"])));
    assert!(e.add_policy(row(&["alice", "/bar/*", "read"])));
    assert_eq!(e.enforce(&row(&["alice", "/foo/123", "read"])).unwrap(), true);
    assert_eq!(e.enforce(&row(&["alice", "/foo/", "read"])).unwrap(), false);
    assert_eq!(e.enforce(&row(&["alice", "/foo/1/2", "read"])).unwrap(), false);
    assert_eq!(e.enforce(&row(&["alice", "/bar/a/b", "read"])).unwrap(), true);
    assert_eq!(e.enforce(&row(&["bob", "/foo/123", "read"])).unwrap(), false);
}

#[test]
fn key_match3_binds_braced_segments() {
    let mut e = Enforcer::new(obj_model("keyMatch3")).unwrap();
    assert!(e.add_policy(row(&["alice", "/res/{id}/view", "read"])));
    assert_eq!(e.enforce(&row(&["alice", "/res/7/view", "read"])).unwrap(), true);
    assert_eq!(e.enforce(&row(&["alice", "/res//view", "read"])).unwrap(), false);
    assert_eq!(e.enforce(&row(&["alice", "/res/7/edit", "read"])).unwrap(), false);
}

#[test]
fn regex_match_runs_the_pattern() {
    let mut e = Enforcer::new(obj_model("regexMatch")).unwrap();
    assert!(e.add_policy(row(&["alice", "^/data/[0-9]+$", "read"])));
    assert_eq!(e.enforce(&row(&["alice", "/data/42", "read"])).unwrap(), true);
    assert_eq!(e.enforce(&row(&["alice", "/data/x", "read"])).unwrap(), false);

    let mut e2 = Enforcer::new(obj_model("regexMatch")).unwrap();
    assert!(e2.add_policy(row(&["alice", "(", "read"])));
    let r = e2.enforce(&row(&["alice", "/data/42", "read"]));
    assert!(matches!(r, Err(CasbinError::ParsingFailure(_))));
}

#[test]
fn ip_match_tests_block_containment() {
    let mut e = Enforcer::new(obj_model("ipMatch")).unwrap();
    assert!(e.add_policy(row(&["alice", "192.168.2.0/24", "read"])));
    assert!(e.add_policy(row(&["alice", "10.0.0.1", "write"])));
    assert_eq!(e.enforce(&row(&["alice", "192.168.2.123", "read"])).unwrap(), true);
    assert_eq!(e.enforce(&row(&["alice", "192.168.3.5", "read"])).unwrap(), false);
    assert_eq!(e.enforce(&row(&["alice", "10.0.0.1", "write"])).unwrap(), true);
    assert_eq!(e.enforce(&row(&["alice", "10.0.0.2", "write"])).unwrap(), false);

    let mut e2 = Enforcer::new(obj_model("ipMatch")).unwrap();
    assert!(e2.add_policy(row(&["alice", "not-an-address", "read"])));
    let r = e2.enforce(&row(&["alice", "10.0.0.1", "read"]));
    assert!(matches!(r, Err(CasbinError::ParsingFailure(_))));
}

#[test]
fn missing_domain_argument_means_no_domain() {
    let mut m = Model::new();
    assert!(m.add_def("r", "r", "sub, obj, act"));
    assert!(m.add_def("p", "p", "sub, obj, act"));
    assert!(m.add_def("g", "g", "_, _"));
    assert!(m.add_def("e", "e", "some(where (p.eft == allow))"));
    assert!(m.add_def(
        "m",
        "m",
        "g(r.sub, p.sub, r.dom) && r.obj == p.obj && r.act == p.act"
    ));
    let mut e = Enforcer::new(m).unwrap();
    assert!(e.add_grouping_policy(row(&["alice", "admin"])));
    assert!(e.add_policy(row(&["admin", "data2", "read"])));
    assert_eq!(e.enforce(&row(&["alice", "data2", "read"])).unwrap(), true);
    assert_eq!(e.enforce(&row(&["bob", "data2", "read"])).unwrap(), false);
}

#[test]
fn remove_filtered_grouping_policy_rebuilds_the_graph() {
    let mut e = Enforcer::new(rbac_model()).unwrap();
    assert!(e.add_grouping_policy(row(&["alice", "admin"])));
    assert!(e.add_grouping_policy(row(&["bob", "admin"])));
    assert!(e.add_policy(row(&["admin", "data2", "read"])));
    assert_eq!(e.enforce(&row(&["alice", "data2", "read"])).unwrap(), true);
    assert_eq!(e.remove_filtered_grouping_policy(0, &row(&["alice"])), true);
    assert_eq!(e.enforce(&row(&["alice", "data2", "read"])).unwrap(), false);
    assert_eq!(e.enforce(&row(&["bob", "data2", "read"])).unwrap(), true);
    assert_eq!(e.remove_filtered_grouping_policy(0, &row(&["carol"])), false);
}
