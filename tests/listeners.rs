use server_starter_listener::{
    listener_for, listeners, parse_spec, Classifier, ListenerError, Pattern,
    ServerStarterListener, HOST_PORT_PATTERN, PORT_PATTERN,
};

fn resolve(var: Option<&str>) -> Result<Vec<ServerStarterListener>, ListenerError> {
    let classifier = Classifier::new().unwrap();
    listeners(&classifier, var)
}

fn assert_invalid(var: &str, segment: &str) {
    match resolve(Some(var)) {
        Err(ListenerError::InvalidServerStarterPortSpec(text)) => assert_eq!(segment, text),
        other => panic!("expected an invalid entry for {:?}, got {:?}", var, other),
    }
}

#[test]
fn listeners_tcp() {
    let assert_tcp_listener = |var: &str, fd: i32| {
        let results = resolve(Some(var));
        match results {
            Ok(results) => {
                assert_eq!(1, results.len());
                let listener = results.first().unwrap();
                match listener {
                    ServerStarterListener::Tcp(tcp_fd) => {
                        assert_eq!(fd, *tcp_fd);
                    }
                    ServerStarterListener::Uds(_) => {
                        assert!(false, "not tcp listener {:?}", listener)
                    }
                }
            }
            Err(_) => assert!(false, "results not ok {:?}", results),
        }
    };

    assert_tcp_listener("80=2", 2);
    assert_tcp_listener("127.0.0.1:8080=3", 3);
    assert_tcp_listener("localhost:8080=4", 4);
}

#[test]
fn listeners_uds() {
    let assert_uds_listener = |var: &str, fd: i32| {
        let results = resolve(Some(var));
        match results {
            Ok(results) => {
                assert_eq!(1, results.len());
                let listener = results.first().unwrap();
                match listener {
                    ServerStarterListener::Tcp(_) => {
                        assert!(false, "not uds listener {:?}", listener)
                    }
                    ServerStarterListener::Uds(uds_fd) => {
                        assert_eq!(fd, *uds_fd);
                    }
                }
            }
            Err(_) => assert!(false, "results not ok {:?}", results),
        }
    };

    assert_uds_listener("/tmp/server-starter-listener/server.sock=2", 2);
}

#[test]
fn listeners_without_env() {
    assert!(resolve(None).is_err());
}

#[test]
fn listeners_invalid_env() {
    assert!(resolve(Some("80=a")).is_err());
}

#[test]
fn missing_variable_is_reported_every_time() {
    for _ in 0..3 {
        assert!(matches!(
            resolve(None),
            Err(ListenerError::ServerStarterPortEnvNotFound)
        ));
    }
}

#[test]
fn entries_keep_their_order() {
    let found = resolve(Some("0.0.0.0:8080=3;/tmp/app.sock=4;80=5")).unwrap();
    assert_eq!(
        vec![
            ServerStarterListener::Tcp(3),
            ServerStarterListener::Uds(4),
            ServerStarterListener::Tcp(5),
        ],
        found
    );
}

#[test]
fn constructed_variable_gives_one_listener_per_entry() {
    let descriptors: Vec<i32> = vec![7, 3, 12, 0, 5, 9];
    let entries: Vec<String> = descriptors
        .iter()
        .enumerate()
        .map(|(i, fd)| {
            if i % 2 == 0 {
                format!("127.0.0.1:{}={}", 8000 + i, fd)
            } else {
                format!("/run/app-{}.sock={}", i, fd)
            }
        })
        .collect();
    let var = entries.join(";");
    let found = resolve(Some(&var)).unwrap();
    assert_eq!(descriptors.len(), found.len());
    for (i, (listener, fd)) in found.iter().zip(descriptors.iter()).enumerate() {
        if i % 2 == 0 {
            assert_eq!(ServerStarterListener::Tcp(*fd), *listener);
        } else {
            assert_eq!(ServerStarterListener::Uds(*fd), *listener);
        }
    }
}

#[test]
fn non_numeric_descriptor_is_invalid() {
    assert_invalid("80=a", "80=a");
    assert_invalid("80=3a", "80=3a");
    assert_invalid("80= 3", "80= 3");
}

#[test]
fn missing_or_repeated_equals_is_invalid() {
    assert_invalid("80", "80");
    assert_invalid("80=3=4", "80=3=4");
    assert_invalid("80==3", "80==3");
}

#[test]
fn empty_parts_are_invalid() {
    // A variable that is set but empty holds one empty entry, which is malformed.
    assert_invalid("", "");
    assert_invalid("=3", "=3");
    assert_invalid("80=", "80=");
    assert_invalid("80=2;", "");
    assert_invalid("80=2;;/tmp/a.sock=3", "");
}

#[test]
fn first_malformed_entry_is_reported() {
    assert_invalid("80=2;x=y;z", "x=y");
    assert_invalid("80=2;90=3;bad", "bad");
}

#[test]
fn descriptor_numbers_read_like_i32() {
    assert_eq!(vec![ServerStarterListener::Tcp(3)], resolve(Some("80=+3")).unwrap());
    assert_eq!(vec![ServerStarterListener::Tcp(0)], resolve(Some("80=-0")).unwrap());
    assert_eq!(vec![ServerStarterListener::Tcp(7)], resolve(Some("80=007")).unwrap());
    assert_eq!(
        vec![ServerStarterListener::Tcp(2147483647)],
        resolve(Some("80=2147483647")).unwrap()
    );
    assert_invalid("80=2147483648", "80=2147483648");
    assert_invalid("80=99999999999999999999", "80=99999999999999999999");
    assert_invalid("80=-1", "80=-1");
    assert_invalid("80=+", "80=+");
    assert_invalid("80=-", "80=-");
}

#[test]
fn unusual_addresses_fall_back_to_unix_sockets() {
    assert_eq!(vec![ServerStarterListener::Uds(3)], resolve(Some("8080:=3")).unwrap());
    assert_eq!(vec![ServerStarterListener::Uds(3)], resolve(Some(":8080=3")).unwrap());
    assert_eq!(vec![ServerStarterListener::Uds(3)], resolve(Some("a:b:80=3")).unwrap());
    assert_eq!(vec![ServerStarterListener::Uds(3)], resolve(Some("80a=3")).unwrap());
    assert_eq!(vec![ServerStarterListener::Uds(3)], resolve(Some("[::1]:80=3")).unwrap());
}

#[test]
fn parse_spec_splits_address_and_descriptor() {
    let spec = parse_spec("localhost:8080=4").unwrap();
    assert_eq!("localhost:8080", spec.address);
    assert_eq!(4, spec.descriptor);
    match parse_spec("localhost:8080") {
        Err(ListenerError::InvalidServerStarterPortSpec(text)) => {
            assert_eq!("localhost:8080", text)
        }
        _ => panic!("expected an invalid entry"),
    }
}

#[test]
fn classify_decides_by_address() {
    let classifier = Classifier::new().unwrap();
    let spec = parse_spec("127.0.0.1:80=6").unwrap();
    assert_eq!(ServerStarterListener::Tcp(6), classifier.classify(&spec));
    let spec = parse_spec("/tmp/s.sock=6").unwrap();
    assert_eq!(ServerStarterListener::Uds(6), classifier.classify(&spec));
}

#[test]
fn listener_for_each_match_outcome() {
    assert_eq!(ServerStarterListener::Tcp(1), listener_for(true, false, 1));
    assert_eq!(ServerStarterListener::Tcp(1), listener_for(false, true, 1));
    assert_eq!(ServerStarterListener::Tcp(1), listener_for(true, true, 1));
    assert_eq!(ServerStarterListener::Uds(1), listener_for(false, false, 1));
}

#[test]
fn address_patterns_match_as_documented() {
    let host_port = Pattern::new(HOST_PORT_PATTERN).unwrap();
    let port = Pattern::new(PORT_PATTERN).unwrap();
    assert!(host_port.is_match("localhost:8080"));
    assert!(!host_port.is_match("8080"));
    assert!(!host_port.is_match("localhost:"));
    assert!(port.is_match("8080"));
    assert!(!port.is_match("x8080"));
    assert!(Pattern::new("(").is_err());
}
