//! Composition, caching and digests.

use clman::compose::{child_env, compose, Cache};
use clman::conf::{Source, Job};
use clman::digest::{checksum, DigestNode, DigestTree};
use clman::env::Environment;
use clman::value::ValueString;
use sha2::Digest;

fn file_tree(bytes: Vec<u8>) -> DigestTree {
    DigestTree {
        define: vec![("W".to_string(), ValueString::from_str("4"))],
        nodes: vec![
            DigestNode::File {
                name: "main.cl".to_string(),
                path: "src/main.cl".to_string(),
                bytes,
            },
        ],
    }
}

#[test]
fn child_env_binds_positional_arguments() {
    let mut parent = Environment::new(None);
    parent.set("x".to_string(), "7".to_string());
    let child = child_env(parent, &"alpha beta".to_string());
    assert_eq!(child.get("0".to_string()), Some("alpha".to_string()));
    assert_eq!(child.get("1".to_string()), Some("beta".to_string()));
    assert_eq!(child.get("2".to_string()), None);
    assert_eq!(child.get("x".to_string()), Some("7".to_string()));
}

#[test]
fn child_env_of_empty_arguments_binds_nothing() {
    let child = child_env(Environment::new(None), &"".to_string());
    assert_eq!(child.get("0".to_string()), None);
}

#[test]
fn compose_emits_defines_then_parts() {
    let defines = vec![("W".to_string(), "4".to_string()), ("H".to_string(), "2".to_string())];
    let parts = vec!["kernel void f() {}\n".to_string(), "// tail\n".to_string()];
    let text = compose(&defines, &parts);
    assert_eq!(
        text,
        "#define W (4)\n#define H (2)\nkernel void f() {}\n// tail\n".to_string(),
    );
}

#[test]
fn second_resolution_hits_the_cache() {
    let tree = file_tree(b"kernel void f() {}\n".to_vec());
    let env = Environment::new(None);
    let raw = "".to_string();
    let defines = vec![("W".to_string(), "4".to_string())];
    let parts = vec!["kernel void f() {}\n".to_string()];

    let mut cache = Cache::new();
    let mut generations: u32 = 0;

    let digest1 = checksum(&tree, &env, &raw).unwrap();
    let text1 = match cache.get(&digest1) {
        Some(t) => t,
        None => {
            generations += 1;
            let t = compose(&defines, &parts);
            cache.put(digest1.clone(), t.clone());
            t
        },
    };

    let digest2 = checksum(&tree, &env, &raw).unwrap();
    assert_eq!(digest1, digest2);
    let text2 = match cache.get(&digest2) {
        Some(t) => t,
        None => {
            generations += 1;
            let t = compose(&defines, &parts);
            cache.put(digest2.clone(), t.clone());
            t
        },
    };

    assert_eq!(text1, text2);
    assert_eq!(generations, 1);
}

#[test]
fn changed_file_bytes_change_the_digest() {
    let env = Environment::new(None);
    let raw = "".to_string();
    let t1 = file_tree(b"kernel void f() {}\n".to_vec());
    let t2 = file_tree(b"kernel void g() {}\n".to_vec());
    let d1 = checksum(&t1, &env, &raw).unwrap();
    let d2 = checksum(&t2, &env, &raw).unwrap();
    assert_ne!(d1, d2);
    assert_eq!(d1.len(), 64);
    assert_eq!(d2.len(), 64);
}

#[test]
fn package_arguments_reach_the_digest() {
    let env = Environment::new(None);
    let sub = DigestTree { define: vec![], nodes: vec![] };
    let mk = |args: &str| DigestTree {
        define: vec![],
        nodes: vec![
            DigestNode::Package {
                name: "dep".to_string(),
                git: "user/dep".to_string(),
                args: ValueString::from_str(args),
                sub: DigestTree { define: sub.define.clone(), nodes: vec![] },
            },
        ],
    };
    let d1 = checksum(&mk("a"), &env, &"".to_string()).unwrap();
    let d2 = checksum(&mk("b"), &env, &"".to_string()).unwrap();
    assert_ne!(d1, d2);
}

#[test]
fn checksum_is_the_sha256_of_the_encoding() {
    // one inline-code node, no defines, empty arguments
    let tree = DigestTree {
        define: vec![],
        nodes: vec![
            DigestNode::Code { name: "n".to_string(), code: ValueString::from_str("k") },
        ],
    };
    let env = Environment::new(None);
    let got = checksum(&tree, &env, &"".to_string()).unwrap();

    // the same encoding, built by hand
    let mut input: Vec<u8> = Vec::new();
    input.extend_from_slice(&0u64.to_le_bytes());  // empty argument string
    input.push(1u8);  // inline-code tag
    input.extend_from_slice(&1u64.to_le_bytes());
    input.extend_from_slice(b"n");
    input.extend_from_slice(&1u64.to_le_bytes());
    input.extend_from_slice(b"k");
    let digest = sha2::Sha256::digest(&input);
    let mut expected = String::new();
    for byte in digest.iter() {
        expected.push_str(&format!("{:02x}", byte));
    }
    assert_eq!(got, expected);
}

#[test]
fn unresolved_package_arguments_fail_the_checksum() {
    let env = Environment::new(None);
    let tree = DigestTree {
        define: vec![],
        nodes: vec![
            DigestNode::Package {
                name: "dep".to_string(),
                git: "user/dep".to_string(),
                args: ValueString::from_str("$missing"),
                sub: DigestTree { define: vec![], nodes: vec![] },
            },
        ],
    };
    match checksum(&tree, &env, &"".to_string()) {
        Err(clman::error::ClmanError::ValueCompute { .. }) => {},
        other => panic!("expected a value computation error, got {:?}", other),
    }
}

#[test]
fn cache_returns_exactly_what_was_stored() {
    let mut cache = Cache::new();
    assert_eq!(cache.get(&"d".to_string()), None);
    cache.put("d".to_string(), "text".to_string());
    assert_eq!(cache.get(&"d".to_string()), Some("text".to_string()));
    // entries are content-addressed: never overwritten
    cache.put("d".to_string(), "other".to_string());
    assert_eq!(cache.get(&"d".to_string()), Some("text".to_string()));
}

#[test]
fn default_project_has_one_file_and_one_job() {
    let c = clman::conf::default();
    assert_eq!(c.src.len(), 1);
    assert_eq!(c.src[0].0, "main.cl".to_string());
    match &c.src[0].1 {
        Source::File { path } => assert_eq!(path, &"src/main.cl".to_string()),
        other => panic!("expected a file node, got {:?}", other),
    }
    assert_eq!(c.jobs.len(), 1);
    match &c.jobs[0].1 {
        Job::Run { run, args, .. } => {
            assert_eq!(run.0, "hello_world".to_string());
            assert!(args.is_empty());
        },
        other => panic!("expected a run job, got {:?}", other),
    }
    assert!(c.buffers.is_empty());
    assert!(c.define.is_empty());
}
