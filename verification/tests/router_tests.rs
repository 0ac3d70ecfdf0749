use router_radix::{
    Expr, RadixHttpMethod, RadixMatchOpts, RadixNode, RadixRouter, RouteFilter, StrMap,
};
use std::sync::Arc;

fn meta(handler: &str) -> serde_json::Value {
    let mut m = serde_json::Map::new();
    m.insert(
        "handler".to_string(),
        serde_json::Value::String(handler.to_string()),
    );
    serde_json::Value::Object(m)
}

fn route(id: &str, paths: &[&str]) -> RadixNode {
    RadixNode {
        id: id.to_string(),
        paths: paths.iter().map(|p| p.to_string()).collect(),
        methods: None,
        hosts: None,
        remote_addrs: None,
        vars: None,
        filter_fn: None,
        priority: 0,
        metadata: serde_json::Value::Null,
    }
}

#[test]
fn test_basic_match() {
    let routes = vec![RadixNode {
        methods: Some(RadixHttpMethod::from_str("GET").unwrap()),
        metadata: meta("get_users"),
        ..route("1", &["/api/users"])
    }];

    let router = RadixRouter::new(routes).unwrap();

    let opts = RadixMatchOpts {
        method: Some("GET".to_string()),
        ..Default::default()
    };

    let result = router.match_route("/api/users", &opts).unwrap();
    assert!(result.is_some());
    let result = result.unwrap();
    assert_eq!(result.metadata["handler"], "get_users");
}

#[test]
fn test_method_not_allowed() {
    let routes = vec![RadixNode {
        methods: Some(RadixHttpMethod::from_str("GET").unwrap()),
        metadata: meta("get_users"),
        ..route("1", &["/api/users"])
    }];

    let router = RadixRouter::new(routes).unwrap();

    let opts = RadixMatchOpts {
        method: Some("POST".to_string()),
        ..Default::default()
    };

    let result = router.match_route("/api/users", &opts).unwrap();
    assert!(result.is_none());
}

#[test]
fn test_param_extraction() {
    let routes = vec![RadixNode {
        metadata: meta("user_post"),
        ..route("1", &["/user/:id/post/:pid"])
    }];

    let router = RadixRouter::new(routes).unwrap();

    let opts = RadixMatchOpts::default();

    let result = router.match_route("/user/123/post/456", &opts).unwrap();

    assert!(result.is_some());
    let result = result.unwrap();
    assert_eq!(result.matched.get("id").unwrap(), "123");
    assert_eq!(result.matched.get("pid").unwrap(), "456");
}

#[test]
fn test_wildcard() {
    let routes = vec![RadixNode {
        metadata: meta("serve_file"),
        ..route("1", &["/files/*path"])
    }];

    let router = RadixRouter::new(routes).unwrap();

    let opts = RadixMatchOpts::default();

    let result = router
        .match_route("/files/documents/readme.txt", &opts)
        .unwrap();

    assert!(result.is_some());
    let result = result.unwrap();
    assert_eq!(result.matched.get("path").unwrap(), "documents/readme.txt");
}

#[test]
fn test_wildcard_host() {
    let routes = vec![RadixNode {
        hosts: Some(vec!["*.example.com".to_string()]),
        metadata: meta("api"),
        ..route("1", &["/api"])
    }];

    let router = RadixRouter::new(routes).unwrap();

    let opts = RadixMatchOpts {
        host: Some("api.example.com".to_string()),
        ..Default::default()
    };

    let result = router.match_route("/api", &opts).unwrap();
    assert!(result.is_some());

    // a host outside the wildcard's suffix does not match
    let opts = RadixMatchOpts {
        host: Some("api.other.com".to_string()),
        ..Default::default()
    };
    let result = router.match_route("/api", &opts).unwrap();
    assert!(result.is_none());
}

#[test]
fn test_priority() {
    let routes = vec![
        RadixNode {
            metadata: meta("low"),
            ..route("1", &["/api/*"])
        },
        RadixNode {
            priority: 10,
            metadata: meta("high"),
            ..route("2", &["/api/users"])
        },
    ];

    let router = RadixRouter::new(routes).unwrap();

    let opts = RadixMatchOpts::default();
    let result = router.match_route("/api/users", &opts).unwrap();

    assert!(result.is_some());
    let result = result.unwrap();
    assert_eq!(result.metadata["handler"], "high");
}

#[test]
fn test_multiple_methods() {
    let routes = vec![RadixNode {
        methods: Some(RadixHttpMethod::from_slice(&["GET", "POST"])),
        metadata: meta("users"),
        ..route("1", &["/api/users"])
    }];

    let router = RadixRouter::new(routes).unwrap();

    let opts = RadixMatchOpts {
        method: Some("GET".to_string()),
        ..Default::default()
    };
    assert!(router.match_route("/api/users", &opts).unwrap().is_some());

    let opts = RadixMatchOpts {
        method: Some("POST".to_string()),
        ..Default::default()
    };
    assert!(router.match_route("/api/users", &opts).unwrap().is_some());

    let opts = RadixMatchOpts {
        method: Some("DELETE".to_string()),
        ..Default::default()
    };
    assert!(router.match_route("/api/users", &opts).unwrap().is_none());
}

struct VersionFilter;

impl RouteFilter for VersionFilter {
    fn check(&self, vars: &StrMap, _opts: &RadixMatchOpts) -> bool {
        vars.get("version").map(|v| v == "v2").unwrap_or(false)
    }
}

#[test]
fn test_filter_function() {
    let routes = vec![RadixNode {
        filter_fn: Some(Arc::new(VersionFilter)),
        metadata: meta("users_v2"),
        ..route("1", &["/api/users"])
    }];

    let router = RadixRouter::new(routes).unwrap();

    // without the version variable
    let opts = RadixMatchOpts::default();
    assert!(router.match_route("/api/users", &opts).unwrap().is_none());

    // with the correct version
    let mut vars = StrMap::new();
    vars.insert("version".to_string(), "v2".to_string());
    let opts = RadixMatchOpts {
        vars: Some(vars),
        ..Default::default()
    };
    assert!(router.match_route("/api/users", &opts).unwrap().is_some());

    // with an incorrect version
    let mut vars = StrMap::new();
    vars.insert("version".to_string(), "v1".to_string());
    let opts = RadixMatchOpts {
        vars: Some(vars),
        ..Default::default()
    };
    assert!(router.match_route("/api/users", &opts).unwrap().is_none());
}

#[test]
fn test_expression_matching() {
    let routes = vec![RadixNode {
        vars: Some(vec![
            Expr::Eq("env".to_string(), "production".to_string()),
            Expr::Regex("user_agent".to_string(), regex::Regex::new("Chrome").unwrap()),
        ]),
        metadata: meta("users"),
        ..route("1", &["/api/users"])
    }];

    let router = RadixRouter::new(routes).unwrap();

    // without variables
    let opts = RadixMatchOpts::default();
    assert!(router.match_route("/api/users", &opts).unwrap().is_none());

    // with the correct variables
    let mut vars = StrMap::new();
    vars.insert("env".to_string(), "production".to_string());
    vars.insert("user_agent".to_string(), "Chrome/90.0".to_string());
    let opts = RadixMatchOpts {
        vars: Some(vars),
        ..Default::default()
    };
    assert!(router.match_route("/api/users", &opts).unwrap().is_some());

    // with an incorrect env
    let mut vars = StrMap::new();
    vars.insert("env".to_string(), "development".to_string());
    vars.insert("user_agent".to_string(), "Chrome/90.0".to_string());
    let opts = RadixMatchOpts {
        vars: Some(vars),
        ..Default::default()
    };
    assert!(router.match_route("/api/users", &opts).unwrap().is_none());
}

#[test]
fn test_add_and_delete_route() {
    let mut router = RadixRouter::new(vec![]).unwrap();

    let make = || RadixNode {
        methods: Some(RadixHttpMethod::from_str("GET").unwrap()),
        metadata: meta("get_users"),
        ..route("1", &["/api/users"])
    };

    router.add_route(make()).unwrap();

    let opts = RadixMatchOpts {
        method: Some("GET".to_string()),
        ..Default::default()
    };

    // registered: the route matches
    assert!(router.match_route("/api/users", &opts).unwrap().is_some());

    router.delete_route(make()).unwrap();

    // removed: the route no longer matches
    assert!(router.match_route("/api/users", &opts).unwrap().is_none());
}
