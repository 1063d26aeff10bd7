use did_toolkit::did::DID;
use did_toolkit::errors::Error;
use did_toolkit::time::VersionTime;
use did_toolkit::url::{URLParameters, URL};

#[test]
fn test_join() {
    let url = URL {
        did: DID { name: "abcdef".into(), id: "123456".into() },
        ..Default::default()
    };

    assert!(url.join("").is_err());

    assert_eq!(url.join("#fragment").unwrap().to_string(), "did:abcdef:123456#fragment");

    assert_eq!(
        url.join("?service=frobnik").unwrap().to_string(),
        "did:abcdef:123456?service=frobnik"
    );

    assert_eq!(
        url.join("?service=frobnik#fragment").unwrap().to_string(),
        "did:abcdef:123456?service=frobnik#fragment"
    );

    assert_eq!(
        url.join("/path?service=frobnik#fragment").unwrap().to_string(),
        "did:abcdef:123456/path?service=frobnik#fragment"
    );
}

#[test]
fn test_join_errors() {
    let url = URL {
        did: DID { name: "abcdef".into(), id: "123456".into() },
        ..Default::default()
    };
    assert_eq!(url.join("").unwrap_err(), Error::EmptyRelativeReference);
    assert_eq!(url.join("frag").unwrap_err(), Error::InvalidRelativeReference);
}

#[test]
fn url_test_to_string() {
    let url = URL {
        did: DID { name: "abcdef".into(), id: "123456".into() },
        ..Default::default()
    };

    assert_eq!(url.to_string(), "did:abcdef:123456");

    let url = URL {
        did: DID { name: "abcdef".into(), id: "123456".into() },
        parameters: Some(URLParameters { path: Some("path".into()), ..Default::default() }),
    };

    assert_eq!(url.to_string(), "did:abcdef:123456/path");

    let url = URL {
        did: DID { name: "abcdef".into(), id: "123456".into() },
        parameters: Some(URLParameters { fragment: Some("fragment".into()), ..Default::default() }),
    };

    assert_eq!(url.to_string(), "did:abcdef:123456#fragment");

    let url = URL {
        did: DID { name: "abcdef".into(), id: "123456".into() },
        parameters: Some(URLParameters {
            path: Some("path".into()),
            fragment: Some("fragment".into()),
            ..Default::default()
        }),
    };

    assert_eq!(url.to_string(), "did:abcdef:123456/path#fragment");

    let url = URL {
        did: DID { name: "abcdef".into(), id: "123456".into() },
        parameters: Some(URLParameters { service: Some("frobnik".into()), ..Default::default() }),
    };

    assert_eq!(url.to_string(), "did:abcdef:123456?service=frobnik");

    let url = URL {
        did: DID { name: "abcdef".into(), id: "123456".into() },
        parameters: Some(URLParameters {
            service: Some("frobnik".into()),
            relative_ref: Some("/ref".into()),
            ..Default::default()
        }),
    };

    assert_eq!(url.to_string(), "did:abcdef:123456?service=frobnik&relativeRef=%2Fref");

    let url = URL {
        did: DID { name: "abcdef".into(), id: "123456".into() },
        parameters: Some(URLParameters {
            service: Some("frobnik".into()),
            relative_ref: Some("/ref".into()),
            version_id: Some("1".into()),
            ..Default::default()
        }),
    };

    assert_eq!(url.to_string(), "did:abcdef:123456?service=frobnik&relativeRef=%2Fref&versionId=1");

    let url = URL {
        did: DID { name: "abcdef".into(), id: "123456".into() },
        parameters: Some(URLParameters {
            service: Some("frobnik".into()),
            relative_ref: Some("/ref".into()),
            version_id: Some("1".into()),
            hash_link: Some("myhash".into()),
            ..Default::default()
        }),
    };

    assert_eq!(
        url.to_string(),
        "did:abcdef:123456?service=frobnik&relativeRef=%2Fref&versionId=1&hl=myhash",
    );

    let map = vec![("extra".into(), "parameter".into())];

    let url = URL {
        did: DID { name: "abcdef".into(), id: "123456".into() },
        parameters: Some(URLParameters {
            service: Some("frobnik".into()),
            relative_ref: Some("/ref".into()),
            version_id: Some("1".into()),
            hash_link: Some("myhash".into()),
            extra_query: Some(map),
            ..Default::default()
        }),
    };

    assert_eq!(
        url.to_string(),
        "did:abcdef:123456?service=frobnik&relativeRef=%2Fref&versionId=1&hl=myhash&extra=parameter",
    );

    let map = vec![("extra".into(), "".into())];

    let url = URL {
        did: DID { name: "abcdef".into(), id: "123456".into() },
        parameters: Some(URLParameters {
            service: Some("frobnik".into()),
            relative_ref: Some("/ref".into()),
            version_id: Some("1".into()),
            hash_link: Some("myhash".into()),
            extra_query: Some(map),
            ..Default::default()
        }),
    };

    assert_eq!(
        url.to_string(),
        "did:abcdef:123456?service=frobnik&relativeRef=%2Fref&versionId=1&hl=myhash&extra=",
    );

    let map = vec![("extra".into(), "parameter".into())];

    let url = URL {
        did: DID { name: "abcdef".into(), id: "123456".into() },
        parameters: Some(URLParameters { extra_query: Some(map), ..Default::default() }),
    };

    assert_eq!(url.to_string(), "did:abcdef:123456?extra=parameter",);

    let map = vec![("extra".into(), "".into())];

    let url = URL {
        did: DID { name: "abcdef".into(), id: "123456".into() },
        parameters: Some(URLParameters { extra_query: Some(map), ..Default::default() }),
    };

    assert_eq!(url.to_string(), "did:abcdef:123456?extra=",);

    let url = URL {
        did: DID { name: "abcdef".into(), id: "123456".into() },
        parameters: Some(URLParameters {
            path: Some("path".into()),
            fragment: Some("fragment".into()),
            service: Some("frobnik".into()),
            relative_ref: Some("/ref".into()),
            version_id: Some("1".into()),
            hash_link: Some("myhash".into()),
            ..Default::default()
        }),
    };

    assert_eq!(
        url.to_string(),
        "did:abcdef:123456/path?service=frobnik&relativeRef=%2Fref&versionId=1&hl=myhash#fragment",
    );

    let url = URL {
        did: DID { name: "abcdef".into(), id: "123456".into() },
        parameters: Some(URLParameters {
            path: Some("path".into()),
            fragment: Some("fragment".into()),
            service: Some("frobnik".into()),
            relative_ref: Some("/ref".into()),
            version_id: Some("1".into()),
            version_time: Some(VersionTime {
                year: 1978,
                month: 4,
                day: 6,
                hour: 6,
                minute: 0,
                second: 0,
            }),
            ..Default::default()
        }),
    };

    assert_eq!(
        url.to_string(),
        "did:abcdef:123456/path?service=frobnik&relativeRef=%2Fref&versionId=1&versionTime=1978-04-06T06:00:00Z#fragment",
    );

    let url = URL {
        did: DID { name: "abcdef".into(), id: "123456:mumble:foo".into() },
        ..Default::default()
    };

    assert_eq!(url.to_string(), "did:abcdef:123456:mumble:foo");
}

#[test]
fn url_test_parse() {
    assert!(URL::parse("").is_err());
    assert!(URL::parse("frobnik").is_err());
    assert!(URL::parse("did").is_err());
    assert!(URL::parse("frobnik:").is_err());
    assert!(URL::parse("did:").is_err());
    assert!(URL::parse("did:abcdef").is_err());

    let url = URL::parse("did:abcdef:123456").unwrap();
    assert_eq!(
        url,
        URL { did: DID { name: "abcdef".into(), id: "123456".into() }, ..Default::default() }
    );

    let url = URL::parse("did:abcdef:123456/path").unwrap();
    assert_eq!(
        url,
        URL {
            did: DID { name: "abcdef".into(), id: "123456".into() },
            parameters: Some(URLParameters { path: Some("path".into()), ..Default::default() }),
        }
    );

    let url = URL::parse("did:abcdef:123456#fragment").unwrap();
    assert_eq!(
        url,
        URL {
            did: DID { name: "abcdef".into(), id: "123456".into() },
            parameters: Some(URLParameters {
                fragment: Some("fragment".into()),
                ..Default::default()
            }),
        }
    );

    let url = URL::parse("did:abcdef:123456/path#fragment").unwrap();
    assert_eq!(
        url,
        URL {
            did: DID { name: "abcdef".into(), id: "123456".into() },
            parameters: Some(URLParameters {
                path: Some("path".into()),
                fragment: Some("fragment".into()),
                ..Default::default()
            }),
        }
    );

    let url = URL::parse("did:abcdef:123456?service=frobnik").unwrap();
    assert_eq!(
        url,
        URL {
            did: DID { name: "abcdef".into(), id: "123456".into() },
            parameters: Some(URLParameters {
                service: Some("frobnik".into()),
                ..Default::default()
            }),
        }
    );

    let url = URL::parse("did:abcdef:123456?service=frobnik&relativeRef=%2Fref").unwrap();
    assert_eq!(
        url,
        URL {
            did: DID { name: "abcdef".into(), id: "123456".into() },
            parameters: Some(URLParameters {
                service: Some("frobnik".into()),
                relative_ref: Some("/ref".into()),
                ..Default::default()
            }),
        }
    );

    let url = URL::parse("did:abcdef:123456?service=frobnik&relativeRef=%2Fref&versionId=1")
        .unwrap();
    assert_eq!(
        url,
        URL {
            did: DID { name: "abcdef".into(), id: "123456".into() },
            parameters: Some(URLParameters {
                service: Some("frobnik".into()),
                relative_ref: Some("/ref".into()),
                version_id: Some("1".into()),
                ..Default::default()
            }),
        }
    );

    let url = URL::parse(
        "did:abcdef:123456?service=frobnik&relativeRef=%2Fref&versionId=1&hl=myhash",
    )
    .unwrap();
    assert_eq!(
        url,
        URL {
            did: DID { name: "abcdef".into(), id: "123456".into() },
            parameters: Some(URLParameters {
                service: Some("frobnik".into()),
                relative_ref: Some("/ref".into()),
                version_id: Some("1".into()),
                hash_link: Some("myhash".into()),
                ..Default::default()
            }),
        }
    );

    let url = URL::parse(
        "did:abcdef:123456?service=frobnik&relativeRef=%2Fref&versionId=1&hl=myhash&extra=parameter",
    )
    .unwrap();

    let map = vec![("extra".into(), "parameter".into())];

    assert_eq!(
        url,
        URL {
            did: DID { name: "abcdef".into(), id: "123456".into() },
            parameters: Some(URLParameters {
                service: Some("frobnik".into()),
                relative_ref: Some("/ref".into()),
                version_id: Some("1".into()),
                hash_link: Some("myhash".into()),
                extra_query: Some(map),
                ..Default::default()
            }),
        }
    );

    let url = URL::parse(
        "did:abcdef:123456?service=frobnik&relativeRef=%2Fref&versionId=1&hl=myhash&extra",
    )
    .unwrap();

    let map = vec![("extra".into(), "".into())];

    assert_eq!(
        url,
        URL {
            did: DID { name: "abcdef".into(), id: "123456".into() },
            parameters: Some(URLParameters {
                service: Some("frobnik".into()),
                relative_ref: Some("/ref".into()),
                version_id: Some("1".into()),
                hash_link: Some("myhash".into()),
                extra_query: Some(map),
                ..Default::default()
            }),
        }
    );

    let url = URL::parse("did:abcdef:123456?extra=parameter").unwrap();

    let map = vec![("extra".into(), "parameter".into())];

    assert_eq!(
        url,
        URL {
            did: DID { name: "abcdef".into(), id: "123456".into() },
            parameters: Some(URLParameters { extra_query: Some(map), ..Default::default() }),
        }
    );

    let url = URL::parse("did:abcdef:123456?extra").unwrap();

    let map = vec![("extra".into(), "".into())];

    assert_eq!(
        url,
        URL {
            did: DID { name: "abcdef".into(), id: "123456".into() },
            parameters: Some(URLParameters { extra_query: Some(map), ..Default::default() }),
        }
    );

    let url = URL::parse(
        "did:abcdef:123456/path?service=frobnik&relativeRef=%2Fref&versionId=1&hl=myhash#fragment",
    )
    .unwrap();
    assert_eq!(
        url,
        URL {
            did: DID { name: "abcdef".into(), id: "123456".into() },
            parameters: Some(URLParameters {
                path: Some("path".into()),
                fragment: Some("fragment".into()),
                service: Some("frobnik".into()),
                relative_ref: Some("/ref".into()),
                version_id: Some("1".into()),
                hash_link: Some("myhash".into()),
                ..Default::default()
            }),
        }
    );

    assert!(URL::parse(
        "did:abcdef:123456/path?service=frobnik&relativeRef=%2Fref&versionId=1&hl=myhash&versionTime=foo#fragment",
    )
    .is_err());

    let url = URL::parse(
        "did:abcdef:123456/path?service=frobnik&relativeRef=%2Fref&versionId=1&hl=myhash&versionTime=1978-04-06T06:00:00Z#fragment",
    )
    .unwrap();

    assert_eq!(
        url,
        URL {
            did: DID { name: "abcdef".into(), id: "123456".into() },
            parameters: Some(URLParameters {
                path: Some("path".into()),
                fragment: Some("fragment".into()),
                service: Some("frobnik".into()),
                relative_ref: Some("/ref".into()),
                version_id: Some("1".into()),
                hash_link: Some("myhash".into()),
                version_time: Some(VersionTime {
                    year: 1978,
                    month: 4,
                    day: 6,
                    hour: 6,
                    minute: 0,
                    second: 0,
                }),
                ..Default::default()
            }),
        }
    );

    let url = URL::parse("did:abcdef:123456:mumble:foo").unwrap();
    assert_eq!(
        url,
        URL {
            did: DID { name: "abcdef".into(), id: "123456:mumble:foo".into() },
            ..Default::default()
        }
    );

    let url = URL::parse("did:example:123?service=agent&relativeRef=/credentials#degree").unwrap();

    assert_eq!(
        url,
        URL {
            did: DID { name: "example".into(), id: "123".into() },
            parameters: Some(URLParameters {
                service: Some("agent".into()),
                relative_ref: Some("/credentials".into()),
                fragment: Some("degree".into()),
                ..Default::default()
            }),
        }
    );

    let url = URL::parse("did:example:123#/degree").unwrap();
    assert_eq!(
        url,
        URL {
            did: DID { name: "example".into(), id: "123".into() },
            parameters: Some(URLParameters {
                fragment: Some("/degree".into()),
                ..Default::default()
            }),
        }
    );

    let url = URL::parse("did:example:123#?degree").unwrap();
    assert_eq!(
        url,
        URL {
            did: DID { name: "example".into(), id: "123".into() },
            parameters: Some(URLParameters {
                fragment: Some("?degree".into()),
                ..Default::default()
            }),
        }
    );

    let url = URL::parse("did:example:123/path#?degree").unwrap();
    assert_eq!(
        url,
        URL {
            did: DID { name: "example".into(), id: "123".into() },
            parameters: Some(URLParameters {
                path: Some("path".into()),
                fragment: Some("?degree".into()),
                ..Default::default()
            }),
        }
    );

    let url = URL::parse("did:example:123#?/degree").unwrap();
    assert_eq!(
        url,
        URL {
            did: DID { name: "example".into(), id: "123".into() },
            parameters: Some(URLParameters {
                fragment: Some("?/degree".into()),
                ..Default::default()
            }),
        }
    );

    let url = URL::parse("did:123456:123#?/degree").unwrap();
    assert_eq!(
        url,
        URL {
            did: DID { name: "123456".into(), id: "123".into() },
            parameters: Some(URLParameters {
                fragment: Some("?/degree".into()),
                ..Default::default()
            }),
        }
    );
}

#[test]
fn url_test_to_did() {
    let url = URL::parse("did:example:123/path#frag").unwrap();
    assert_eq!(url.to_did(), DID { name: "example".into(), id: "123".into() });
}

#[test]
fn url_test_round_trip_composite() {
    // every component set at once, with delimiters hiding inside values:
    // the text form must parse back field for field
    let url = URL {
        did: DID { name: "web".into(), id: vec![0x00, 0x2f, 0x3f, 0x23, 0xfe] },
        parameters: Some(URLParameters {
            path: Some(vec![0x61, 0x2f, 0x3f]),
            fragment: Some("frag/with?stuff".into()),
            service: Some("agent?x=y".into()),
            relative_ref: Some("/a/b?c".into()),
            version_id: Some("v=1".into()),
            version_time: Some(VersionTime {
                year: 2024,
                month: 2,
                day: 29,
                hour: 23,
                minute: 59,
                second: 59,
            }),
            hash_link: Some("zQm".into()),
            extra_query: Some(vec![
                ("k one".into(), "v&1".into()),
                ("k#2".into(), "".into()),
            ]),
        }),
    };
    let text = url.to_string();
    assert_eq!(URL::parse(&text).unwrap(), url);
}

#[test]
fn url_test_duplicate_query_keys() {
    // a repeated unrecognized key keeps its first position and takes the
    // last value
    let url = URL::parse("did:a:b?x=1&y=2&x=3").unwrap();
    let params = url.parameters.unwrap();
    let extra = params.extra_query.unwrap();
    assert_eq!(extra, vec![("x".into(), "3".into()), ("y".into(), "2".into())]);
}

#[test]
fn url_test_bare_query() {
    // a lone `?` carries one empty unrecognized pair
    let url = URL::parse("did:a:b?").unwrap();
    let params = url.parameters.unwrap();
    let extra = params.extra_query.unwrap();
    assert_eq!(extra, vec![(Vec::new(), Vec::new())]);
}

#[test]
fn url_test_version_time_errors() {
    assert_eq!(
        URL::parse("did:example:123?versionTime=2023-13-01T00:00:00Z").unwrap_err(),
        Error::InvalidVersionTime
    );
    assert_eq!(
        URL::parse("did:example:123?versionTime=2023-02-29T00:00:00Z").unwrap_err(),
        Error::InvalidVersionTime
    );
    assert!(URL::parse("did:example:123?versionTime=2024-02-29T23:59:59Z").is_ok());
}
