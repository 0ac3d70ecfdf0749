use router_radix::{
    Expr, HostPattern, RadixHttpMethod, RadixMatchOpts, RadixNode, RadixRouter, RouterError,
    StrMap,
};

fn meta(handler: &str) -> serde_json::Value {
    let mut m = serde_json::Map::new();
    m.insert(
        "handler".to_string(),
        serde_json::Value::String(handler.to_string()),
    );
    serde_json::Value::Object(m)
}

fn route(id: &str, paths: &[&str]) -> RadixNode {
    RadixNode {
        id: id.to_string(),
        paths: paths.iter().map(|p| p.to_string()).collect(),
        methods: None,
        hosts: None,
        remote_addrs: None,
        vars: None,
        filter_fn: None,
        priority: 0,
        metadata: serde_json::Value::Null,
    }
}

#[test]
fn priority_decides_within_exact_candidates() {
    // three routes: two exact ones sharing a path, one prefix route; the
    // exact route with the higher priority wins
    let routes = vec![
        RadixNode {
            methods: Some(RadixHttpMethod::from_str("GET").unwrap()),
            ..route("a", &["/api/users"])
        },
        RadixNode {
            priority: 0,
            ..route("b", &["/api/*"])
        },
        RadixNode {
            priority: 10,
            methods: Some(RadixHttpMethod::from_str("GET").unwrap()),
            ..route("c", &["/api/users"])
        },
    ];
    let router = RadixRouter::new(routes).unwrap();
    let opts = RadixMatchOpts {
        method: Some("GET".to_string()),
        ..Default::default()
    };
    let result = router.match_route("/api/users", &opts).unwrap().unwrap();
    assert_eq!(result.id, "c");
}

#[test]
fn exact_index_beats_higher_priority_prefix() {
    // the exact index is consulted first: an exact route wins over a
    // higher-priority prefix route for the same request
    let routes = vec![
        route("exact", &["/api/users"]),
        RadixNode {
            priority: 99,
            ..route("prefix", &["/api/*"])
        },
    ];
    let router = RadixRouter::new(routes).unwrap();
    let opts = RadixMatchOpts::default();
    let result = router.match_route("/api/users", &opts).unwrap().unwrap();
    assert_eq!(result.id, "exact");
}

#[test]
fn synthetic_keys_are_recorded() {
    let routes = vec![route("r", &["/user/:id"])];
    let router = RadixRouter::new(routes).unwrap();
    let opts = RadixMatchOpts {
        method: Some("GET".to_string()),
        ..Default::default()
    };
    let result = router.match_route("/user/7", &opts).unwrap().unwrap();
    assert_eq!(result.matched.get("_path").unwrap(), "/user/:id");
    assert_eq!(result.matched.get("_method").unwrap(), "GET");
    assert_eq!(result.matched.get("id").unwrap(), "7");
}

#[test]
fn wildcard_host_records_pattern_form() {
    let routes = vec![RadixNode {
        hosts: Some(vec!["*.example.com".to_string()]),
        ..route("r", &["/api"])
    }];
    let router = RadixRouter::new(routes).unwrap();
    // the host comparison is case-insensitive
    let opts = RadixMatchOpts {
        host: Some("API.Example.COM".to_string()),
        ..Default::default()
    };
    let result = router.match_route("/api", &opts).unwrap().unwrap();
    assert_eq!(result.matched.get("_host").unwrap(), "*.example.com");
}

#[test]
fn literal_host_records_host_as_given() {
    // the comparison folds both sides, but `_host` records the request
    // host exactly as the caller supplied it
    let routes = vec![RadixNode {
        hosts: Some(vec!["API.example.com".to_string()]),
        ..route("r", &["/api"])
    }];
    let router = RadixRouter::new(routes).unwrap();
    let opts = RadixMatchOpts {
        host: Some("api.EXAMPLE.com".to_string()),
        ..Default::default()
    };
    let result = router.match_route("/api", &opts).unwrap().unwrap();
    assert_eq!(result.matched.get("_host").unwrap(), "api.EXAMPLE.com");
}

#[test]
fn host_pattern_matches_directly() {
    let p = HostPattern::new("*.example.com");
    assert!(p.is_wildcard);
    assert!(p.matches("API.Example.COM"));
    assert!(!p.matches("example.org"));
    let q = HostPattern::new("www.site.org");
    assert!(!q.is_wildcard);
    assert!(q.matches("WWW.SITE.ORG"));
    assert!(!q.matches("a.www.site.org"));
}

#[test]
fn required_method_rejects_absent_method() {
    // a route with a method set demands that the request name a method
    let routes = vec![RadixNode {
        methods: Some(RadixHttpMethod::from_str("GET").unwrap()),
        ..route("r", &["/api"])
    }];
    let router = RadixRouter::new(routes).unwrap();
    let opts = RadixMatchOpts::default();
    assert!(router.match_route("/api", &opts).unwrap().is_none());
}

#[test]
fn methods_parse_case_insensitively() {
    assert_eq!(
        RadixHttpMethod::from_str("get"),
        RadixHttpMethod::from_str("GET")
    );
    assert!(RadixHttpMethod::from_str("FETCH").is_none());
    // unknown names are ignored by the slice parser
    let ms = RadixHttpMethod::from_slice(&["purge", "bogus", "Trace"]);
    assert_eq!(ms, RadixHttpMethod::from_slice(&["PURGE", "TRACE"]));
}

#[test]
fn bare_trailing_wildcard_captures_nothing() {
    let routes = vec![route("r", &["/api/*"])];
    let router = RadixRouter::new(routes).unwrap();
    let opts = RadixMatchOpts::default();
    let result = router.match_route("/api/a/b", &opts).unwrap().unwrap();
    assert_eq!(result.id, "r");
    assert!(result.matched.get("ext").is_none());
}

#[test]
fn non_final_wildcard_is_malformed() {
    let mut router = RadixRouter::new(vec![]).unwrap();
    let err = router.add_route(route("r", &["/a/*/b"])).unwrap_err();
    match err {
        RouterError::MalformedPath(p) => assert_eq!(p, "/a/*/b"),
        other => panic!("unexpected error: {:?}", other),
    }
}

#[test]
fn deleting_unknown_route_fails() {
    let mut router = RadixRouter::new(vec![route("a", &["/x"])]).unwrap();
    let err = router.delete_route(route("b", &["/y"])).unwrap_err();
    match err {
        RouterError::RouteNotFound(id) => assert_eq!(id, "b"),
        other => panic!("unexpected error: {:?}", other),
    }
}

#[test]
fn deleting_unknown_id_under_known_path_fails() {
    // the path is registered, but under another id: removal is an error
    // and the registered route stays untouched
    let mut router = RadixRouter::new(vec![route("x", &["/p"])]).unwrap();
    let err = router.delete_route(route("y", &["/p"])).unwrap_err();
    match err {
        RouterError::RouteNotFound(id) => assert_eq!(id, "y"),
        other => panic!("unexpected error: {:?}", other),
    }
    let opts = RadixMatchOpts::default();
    assert_eq!(router.match_route("/p", &opts).unwrap().unwrap().id, "x");
}

#[test]
fn deleting_unknown_id_under_known_prefix_fails() {
    // same for the prefix index: `/p/:a` and `/p/:b` share the key `/p/`
    let mut router = RadixRouter::new(vec![route("x", &["/p/:a"])]).unwrap();
    let err = router.delete_route(route("y", &["/p/:b"])).unwrap_err();
    match err {
        RouterError::RouteNotFound(id) => assert_eq!(id, "y"),
        other => panic!("unexpected error: {:?}", other),
    }
    let opts = RadixMatchOpts::default();
    let result = router.match_route("/p/v", &opts).unwrap().unwrap();
    assert_eq!(result.id, "x");
    assert_eq!(result.matched.get("a").unwrap(), "v");
}

#[test]
fn empty_router_matches_nothing() {
    let router = RadixRouter::new(vec![]).unwrap();
    let opts = RadixMatchOpts::default();
    assert!(router.match_route("/anything", &opts).unwrap().is_none());
}

#[test]
fn update_route_swaps_descriptors() {
    let mut router = RadixRouter::new(vec![RadixNode {
        metadata: meta("old"),
        ..route("r", &["/api"])
    }])
    .unwrap();
    router
        .update_route(
            RadixNode {
                metadata: meta("old"),
                ..route("r", &["/api"])
            },
            RadixNode {
                metadata: meta("new"),
                ..route("r", &["/api/v2"])
            },
        )
        .unwrap();
    let opts = RadixMatchOpts::default();
    assert!(router.match_route("/api", &opts).unwrap().is_none());
    let result = router.match_route("/api/v2", &opts).unwrap().unwrap();
    assert_eq!(result.metadata["handler"], "new");
}

#[test]
fn empty_expression_list_needs_no_vars() {
    // an empty expression list puts no demand on the request variables
    let routes = vec![RadixNode {
        vars: Some(vec![]),
        ..route("r", &["/api"])
    }];
    let router = RadixRouter::new(routes).unwrap();
    let opts = RadixMatchOpts::default();
    assert!(router.match_route("/api", &opts).unwrap().is_some());
}

fn vars_opts(pairs: &[(&str, &str)]) -> RadixMatchOpts {
    let mut vars = StrMap::new();
    for (k, v) in pairs {
        vars.insert(k.to_string(), v.to_string());
    }
    RadixMatchOpts {
        vars: Some(vars),
        ..Default::default()
    }
}

#[test]
fn neq_holds_for_missing_variable() {
    let routes = vec![RadixNode {
        vars: Some(vec![Expr::Neq("env".to_string(), "dev".to_string())]),
        ..route("r", &["/api"])
    }];
    let router = RadixRouter::new(routes).unwrap();
    assert!(router
        .match_route("/api", &vars_opts(&[("other", "1")]))
        .unwrap()
        .is_some());
    assert!(router
        .match_route("/api", &vars_opts(&[("env", "dev")]))
        .unwrap()
        .is_none());
    assert!(router
        .match_route("/api", &vars_opts(&[("env", "prod")]))
        .unwrap()
        .is_some());
}

#[test]
fn in_expression_lists_values() {
    let routes = vec![RadixNode {
        vars: Some(vec![Expr::In(
            "region".to_string(),
            vec!["eu".to_string(), "us".to_string()],
        )]),
        ..route("r", &["/api"])
    }];
    let router = RadixRouter::new(routes).unwrap();
    assert!(router
        .match_route("/api", &vars_opts(&[("region", "us")]))
        .unwrap()
        .is_some());
    assert!(router
        .match_route("/api", &vars_opts(&[("region", "ap")]))
        .unwrap()
        .is_none());
}

#[test]
fn numeric_comparisons_are_exact() {
    let routes = vec![RadixNode {
        vars: Some(vec![
            Expr::Gt("age".to_string(), "21".to_string()),
            Expr::Lt("score".to_string(), "1e3".to_string()),
        ]),
        ..route("r", &["/api"])
    }];
    let router = RadixRouter::new(routes).unwrap();
    assert!(router
        .match_route("/api", &vars_opts(&[("age", "22.5"), ("score", "999.25")]))
        .unwrap()
        .is_some());
    // equal is not greater
    assert!(router
        .match_route("/api", &vars_opts(&[("age", "21"), ("score", "1")]))
        .unwrap()
        .is_none());
    // `.5e2` reads as 50; `+21.000` equals 21
    assert!(router
        .match_route("/api", &vars_opts(&[("age", ".5e2"), ("score", "-1")]))
        .unwrap()
        .is_some());
    assert!(router
        .match_route("/api", &vars_opts(&[("age", "+21.000"), ("score", "0")]))
        .unwrap()
        .is_none());
    // a non-numeric operand never compares
    assert!(router
        .match_route("/api", &vars_opts(&[("age", "old"), ("score", "0")]))
        .unwrap()
        .is_none());
    // infinities order by sign; nan compares with nothing
    assert!(router
        .match_route("/api", &vars_opts(&[("age", "inf"), ("score", "-INF")]))
        .unwrap()
        .is_some());
    assert!(router
        .match_route("/api", &vars_opts(&[("age", "nan"), ("score", "0")]))
        .unwrap()
        .is_none());
}

#[test]
fn deep_prefix_wins_over_shallow() {
    let routes = vec![
        RadixNode {
            priority: 50,
            ..route("shallow", &["/a/*"])
        },
        route("deep", &["/a/b/:x"]),
    ];
    let router = RadixRouter::new(routes).unwrap();
    let opts = RadixMatchOpts::default();
    // the longer prefix is walked first, whatever the priorities
    let result = router.match_route("/a/b/c", &opts).unwrap().unwrap();
    assert_eq!(result.id, "deep");
    assert_eq!(result.matched.get("x").unwrap(), "c");
}

#[test]
fn rejected_candidate_leaves_no_traces() {
    // the first candidate fails on its method; the winner's map must not
    // hold the loser's captures
    let routes = vec![
        RadixNode {
            priority: 10,
            methods: Some(RadixHttpMethod::from_str("POST").unwrap()),
            ..route("loser", &["/a/:first"])
        },
        route("winner", &["/a/:second"]),
    ];
    let router = RadixRouter::new(routes).unwrap();
    let opts = RadixMatchOpts {
        method: Some("GET".to_string()),
        ..Default::default()
    };
    let result = router.match_route("/a/v", &opts).unwrap().unwrap();
    assert_eq!(result.id, "winner");
    assert!(result.matched.get("first").is_none());
    assert_eq!(result.matched.get("second").unwrap(), "v");
}

#[test]
fn mid_segment_colon_matches_literally() {
    // a `:` that does not open a segment stays literal, but the pattern
    // still demands a full match of the request path
    let routes = vec![route("r", &["/x/a:b"])];
    let router = RadixRouter::new(routes).unwrap();
    let opts = RadixMatchOpts::default();
    assert!(router.match_route("/x/a:b", &opts).unwrap().is_some());
    assert!(router.match_route("/x/aqq", &opts).unwrap().is_none());
}

#[test]
fn trailing_slash_is_significant() {
    // paths are compared as given: no trailing-slash normalization
    let routes = vec![route("r", &["/a"])];
    let router = RadixRouter::new(routes).unwrap();
    let opts = RadixMatchOpts::default();
    assert!(router.match_route("/a", &opts).unwrap().is_some());
    assert!(router.match_route("/a/", &opts).unwrap().is_none());
}

#[test]
fn one_route_under_several_paths() {
    let routes = vec![RadixNode {
        metadata: meta("both"),
        ..route("r", &["/v1/users", "/v2/:tail"])
    }];
    let router = RadixRouter::new(routes).unwrap();
    let opts = RadixMatchOpts::default();
    assert_eq!(
        router
            .match_route("/v1/users", &opts)
            .unwrap()
            .unwrap()
            .metadata["handler"],
        "both"
    );
    let result = router.match_route("/v2/anything", &opts).unwrap().unwrap();
    assert_eq!(result.metadata["handler"], "both");
    assert_eq!(result.matched.get("tail").unwrap(), "anything");
}

#[test]
fn add_then_delete_multi_path_restores() {
    let keep = RadixNode {
        metadata: meta("keep"),
        ..route("keep", &["/v1/users", "/files/*rest"])
    };
    let mut router = RadixRouter::new(vec![keep]).unwrap();
    let make = || route("temp", &["/v1/users", "/files/*rest", "/other"]);
    router.add_route(make()).unwrap();
    router.delete_route(make()).unwrap();
    let opts = RadixMatchOpts::default();
    // the surviving route answers exactly as before
    assert_eq!(
        router
            .match_route("/v1/users", &opts)
            .unwrap()
            .unwrap()
            .id,
        "keep"
    );
    assert_eq!(
        router
            .match_route("/files/a/b", &opts)
            .unwrap()
            .unwrap()
            .id,
        "keep"
    );
    assert!(router.match_route("/other", &opts).unwrap().is_none());
}

#[test]
fn param_requires_nonempty_segment() {
    let routes = vec![route("r", &["/a/:x"])];
    let router = RadixRouter::new(routes).unwrap();
    let opts = RadixMatchOpts::default();
    assert!(router.match_route("/a/", &opts).unwrap().is_none());
    assert!(router.match_route("/a/b/c", &opts).unwrap().is_none());
    assert!(router.match_route("/a/b", &opts).unwrap().is_some());
}
