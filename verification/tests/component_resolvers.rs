//! Tests of the verification of component resolvers.

use fuchsia::component_resolvers::{
    check_responses, unexpected_monikers, verify_component_resolvers, AllowList, AllowListEntry,
    ComponentResolversRequest, ComponentResolversResponse, Deps, NodePath, QueryComponentResolvers,
    QueryError, ScrutinyQueryComponentResolvers,
};
use std::collections::HashMap;

struct MockQueryComponentResolvers {
    responses: HashMap<(String, NodePath, String), (Vec<NodePath>, Vec<String>)>,
    raw_responses: HashMap<(String, NodePath, String), String>,
}

impl MockQueryComponentResolvers {
    fn new() -> Self {
        Self { responses: HashMap::new(), raw_responses: HashMap::new() }
    }

    fn with_response(
        mut self,
        query: (String, NodePath, String),
        response: Vec<NodePath>,
        response_deps: Vec<String>,
    ) -> Self {
        self.responses.insert(query, (response, response_deps));
        self
    }

    fn with_raw_response(mut self, query: (String, NodePath, String), response: String) -> Self {
        self.raw_responses.insert(query, response);
        self
    }
}

impl QueryComponentResolvers for MockQueryComponentResolvers {
    fn query(
        &self,
        scheme: String,
        moniker: NodePath,
        protocol: String,
    ) -> Result<ComponentResolversResponse, QueryError> {
        let key = (scheme, moniker, protocol);
        if let Some(raw) = self.raw_responses.get(&key) {
            let monikers: Vec<NodePath> = serde_json5::from_str(raw)
                .map_err(|e| QueryError { message: format!("{:?}: {}", raw, e) })?;
            return Ok(ComponentResolversResponse { monikers, deps: vec![] });
        }
        let (monikers, deps) = self.responses.get(&key).expect("mock to be configured for key");
        Ok(ComponentResolversResponse { monikers: monikers.clone(), deps: deps.clone() })
    }
}

fn key(scheme: &str, moniker: &str, protocol: &str) -> (String, NodePath, String) {
    (scheme.to_owned(), moniker.to_owned(), protocol.to_owned())
}

fn strings(values: &[&str]) -> Vec<String> {
    values.iter().map(|v| v.to_string()).collect()
}

fn entry(scheme: &str, moniker: &str, protocol: &str, components: &[&str]) -> AllowListEntry {
    AllowListEntry {
        query: ComponentResolversRequest {
            scheme: scheme.to_owned(),
            moniker: moniker.to_owned(),
            protocol: protocol.to_owned(),
        },
        components: strings(components),
    }
}

fn deps(values: &[&str]) -> Deps {
    let mut deps = Deps::default();
    for value in values {
        deps.insert(value.to_string());
    }
    deps
}

#[test]
fn fails_on_invalid_response() {
    let allowlist = AllowList(vec![entry(
        "fuchsia-pkg",
        "/core/universe-resolver",
        "fuchsia.pkg.PackageResolver",
        &[],
    )]);

    let scrutiny = MockQueryComponentResolvers::new().with_raw_response(
        key("fuchsia-pkg", "/core/universe-resolver", "fuchsia.pkg.PackageResolver"),
        "invalid".to_owned(),
    );

    let error = verify_component_resolvers(scrutiny, allowlist).unwrap_err();
    assert_eq!(
        error.query,
        ComponentResolversRequest {
            scheme: "fuchsia-pkg".to_owned(),
            moniker: "/core/universe-resolver".to_owned(),
            protocol: "fuchsia.pkg.PackageResolver".to_owned(),
        }
    );
    assert!(error.cause.message.starts_with("\"invalid\": "));
}

#[test]
fn reports_unexpected_entry() {
    let allowlist = AllowList(vec![entry(
        "fuchsia-pkg",
        "/core/universe-resolver",
        "fuchsia.pkg.PackageResolver",
        &["/core/allowed"],
    )]);

    let violations = AllowList(vec![entry(
        "fuchsia-pkg",
        "/core/universe-resolver",
        "fuchsia.pkg.PackageResolver",
        &["/core/stopme"],
    )]);

    let scrutiny = MockQueryComponentResolvers::new().with_response(
        key("fuchsia-pkg", "/core/universe-resolver", "fuchsia.pkg.PackageResolver"),
        vec!["/core/allowed".to_owned(), "/core/stopme".to_owned()],
        vec!["path/to/dep.zbi".to_owned()],
    );

    assert_eq!(verify_component_resolvers(scrutiny, allowlist).unwrap(), Err(violations));
}

#[test]
fn ignores_unused_allow() {
    let allowlist = AllowList(vec![entry(
        "fuchsia-pkg",
        "/core/universe-resolver",
        "fuchsia.pkg.PackageResolver",
        &["/core/allowed", "/core/also-allowed"],
    )]);

    let scrutiny = MockQueryComponentResolvers::new().with_response(
        key("fuchsia-pkg", "/core/universe-resolver", "fuchsia.pkg.PackageResolver"),
        vec!["/core/allowed".to_owned(), "/core/also-allowed".to_owned()],
        vec!["path/to/dep.zbi".to_owned()],
    );

    let expected_deps = deps(&["path/to/dep.zbi"]);
    assert_eq!(verify_component_resolvers(scrutiny, allowlist).unwrap(), Ok(expected_deps));
}

#[test]
fn checks_all_entries() {
    let allowlist = AllowList(vec![
        entry("a", "/core/resolver-a", "fuchsia.proto.a", &["/core/allowed-a"]),
        entry("b", "/core/resolver-b", "fuchsia.proto.b", &["/core/allowed-b"]),
        entry("c", "/core/resolver-c", "fuchsia.proto.c", &["/core/allowed-c"]),
    ]);

    let violations = AllowList(vec![
        entry("a", "/core/resolver-a", "fuchsia.proto.a", &["/core/violation-a"]),
        entry("c", "/core/resolver-c", "fuchsia.proto.c", &["/core/violation-c"]),
    ]);

    let scrutiny = MockQueryComponentResolvers::new()
        .with_response(
            key("a", "/core/resolver-a", "fuchsia.proto.a"),
            vec!["/core/allowed-a".to_owned(), "/core/violation-a".to_owned()],
            vec!["dep1".to_owned()],
        )
        .with_response(
            key("b", "/core/resolver-b", "fuchsia.proto.b"),
            vec!["/core/allowed-b".to_owned()],
            vec!["dep2".to_owned()],
        )
        .with_response(
            key("c", "/core/resolver-c", "fuchsia.proto.c"),
            vec!["/core/allowed-c".to_owned(), "/core/violation-c".to_owned()],
            vec!["dep3".to_owned()],
        );

    assert_eq!(verify_component_resolvers(scrutiny, allowlist).unwrap(), Err(violations));
}

#[test]
fn collects_dependencies_of_all_answers_in_order() {
    let allowlist = AllowList(vec![entry("a", "/a", "p", &["/x"]), entry("b", "/b", "p", &[])]);
    let scrutiny = MockQueryComponentResolvers::new()
        .with_response(key("a", "/a", "p"), strings(&["/x"]), strings(&["dep2", "dep10", "dep1"]))
        .with_response(key("b", "/b", "p"), vec![], strings(&["dep2", "b\u{e9}", "bz", "b"]));
    let found = verify_component_resolvers(scrutiny, allowlist).unwrap().unwrap();
    assert_eq!(found.get(), strings(&["b", "bz", "b\u{e9}", "dep1", "dep10", "dep2"]));
}

#[test]
fn asks_nothing_of_an_empty_list() {
    let scrutiny = MockQueryComponentResolvers::new();
    let found = verify_component_resolvers(scrutiny, AllowList(vec![])).unwrap().unwrap();
    assert!(found.get().is_empty());
}

#[test]
fn stops_at_the_first_question_without_an_answer() {
    let allowlist = AllowList(vec![
        entry("a", "/a", "p", &[]),
        entry("b", "/b", "p", &[]),
        entry("c", "/c", "p", &[]),
    ]);
    let scrutiny = MockQueryComponentResolvers::new()
        .with_response(key("a", "/a", "p"), strings(&["/violation"]), vec![])
        .with_raw_response(key("b", "/b", "p"), "[".to_owned());
    let error = verify_component_resolvers(scrutiny, allowlist).unwrap_err();
    assert_eq!(error.query.scheme, "b");
}

#[test]
fn unexpected_components_keep_their_order_and_number() {
    let found = unexpected_monikers(
        &strings(&["/c", "/a", "/b", "/c", "/a"]),
        &strings(&["/a", "/unused"]),
    );
    assert_eq!(found, strings(&["/c", "/b", "/c"]));
}

#[test]
fn violations_would_allow_what_came_up() {
    let responses = vec![
        ComponentResolversResponse { deps: vec![], monikers: strings(&["/x", "/y"]) },
        ComponentResolversResponse { deps: strings(&["d"]), monikers: strings(&["/z"]) },
    ];
    let allowlist =
        AllowList(vec![entry("a", "/a", "p", &["/y"]), entry("b", "/b", "p", &["/z"])]);
    let violations = check_responses(&allowlist, &responses).unwrap_err();
    assert_eq!(violations, AllowList(vec![entry("a", "/a", "p", &["/x"])]));
    let wider =
        AllowList(vec![entry("a", "/a", "p", &["/y", "/x"]), entry("b", "/b", "p", &["/z"])]);
    assert_eq!(check_responses(&wider, &responses), Ok(deps(&["d"])));
}

#[test]
fn iterates_over_questions_and_components() {
    let allowlist =
        AllowList(vec![entry("a", "/a", "p", &["/x", "/y"]), entry("b", "/b", "q", &[])]);
    let items = allowlist.iter();
    assert_eq!(items.len(), 2);
    assert_eq!(items[0].0.scheme, "a");
    assert_eq!(items[0].1, &strings(&["/x", "/y"]));
    assert_eq!(items[1].0.protocol, "q");
    assert!(items[1].1.is_empty());
}

#[test]
fn dependencies_are_a_set() {
    assert_eq!(deps(&["b", "a", "b"]), deps(&["a", "b"]));
    assert_eq!(deps(&["b", "a", "b"]).get(), strings(&["a", "b"]));
    assert_ne!(deps(&["a"]), deps(&["a", "b"]));
    assert_eq!(deps(&["ab", "a", "", "B"]).get(), strings(&["", "B", "a", "ab"]));
}

#[test]
fn command_asks_for_a_resolver() {
    let scrutiny = ScrutinyQueryComponentResolvers { build_dir: "out/default".to_owned() };
    let request = ComponentResolversRequest {
        scheme: "fuchsia-pkg".to_owned(),
        moniker: "/core/resolver".to_owned(),
        protocol: "fuchsia.pkg.PackageResolver".to_owned(),
    };
    let command = scrutiny.command(&request);
    assert_eq!(command.name, "verify.component_resolvers");
    assert_eq!(
        command.params,
        vec![
            ("scheme".to_owned(), "fuchsia-pkg".to_owned()),
            ("moniker".to_owned(), "/core/resolver".to_owned()),
            ("protocol".to_owned(), "fuchsia.pkg.PackageResolver".to_owned()),
        ]
    );
    assert_eq!(
        command.plugins,
        strings(&["DevmgrConfigPlugin", "StaticPkgsPlugin", "CorePlugin", "VerifyPlugin"])
    );
    assert_eq!(command.build_path, "out/default");
    assert_eq!(command.repository_path, "out/default/amber-files/repository");
    assert!(command.silent_mode);
}

#[test]
fn errors_are_told_from_results() {
    assert_eq!(
        ScrutinyQueryComponentResolvers::interpret("Error: no plugin".to_owned()),
        Err(QueryError { message: "Error: no plugin".to_owned() })
    );
    assert_eq!(ScrutinyQueryComponentResolvers::interpret("{}".to_owned()), Ok("{}".to_owned()));
    assert_eq!(
        ScrutinyQueryComponentResolvers::interpret("Error:".to_owned()),
        Ok("Error:".to_owned())
    );
}

#[test]
fn answers_with_the_same_files_are_equal() {
    let answer = |monikers: &[&str], deps: &[&str]| ComponentResolversResponse {
        monikers: strings(monikers),
        deps: strings(deps),
    };
    assert_eq!(answer(&["/a", "/b"], &["x", "y"]), answer(&["/a", "/b"], &["y", "x", "y"]));
    assert_eq!(answer(&[], &[]), answer(&[], &[]));
    assert_ne!(answer(&["/a", "/b"], &["x"]), answer(&["/b", "/a"], &["x"]));
    assert_ne!(answer(&["/a"], &["x"]), answer(&["/a"], &["x", "y"]));
    assert_ne!(answer(&["/a"], &["x", "y"]), answer(&["/a"], &["x"]));
    assert_ne!(answer(&["/a"], &[]), answer(&["/a", "/a"], &[]));
}

#[test]
fn dependencies_are_ordered_by_code_points() {
    let mut deps = Deps::default();
    for dep in strings(&["b", "\u{10000}", "", "\u{ffff}", "ab", "a", "é", "ab", "B"]) {
        deps.insert(dep);
    }
    let expected = strings(&["", "B", "a", "ab", "b", "é", "\u{ffff}", "\u{10000}"]);
    assert_eq!(deps.get(), expected);
    let mut sorted = expected.clone();
    sorted.sort_unstable();
    assert_eq!(sorted, expected);
}
