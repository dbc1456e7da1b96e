//! Checks of the codec, the identifier utilities and the surrounding
//! service, account and document models.

use lily::auth::AuthError;
use lily::auth::ServerOptions;
use lily::codec::encode_patch;
use lily::codec::parse_patch_text;
use lily::model::LilyError;
use lily::patch::ChangeMode;
use lily::patch::Patch;
use lily::registry::Registry;
use lily::services::RegistryDeleteRequestBody;
use lily::services::RegistryPushRequestBody;
use lily::services::ServerConfiguration;
use lily::services::ServicesConfiguration;
use lily::slime::transform;
use lily::slime::Config as SlimeConfig;
use lily::smap::SMap;
use lily::text::str_lt;
use lily::util::hash;
use lily::util::random_id;
use lily::util::unix_epoch_timestamp;
use lily::util::uuid;

#[test]
fn patch_text_round_trip() {
    let p = Patch::from_file(
        "dir/a.txt".to_string(),
        "one\ntwo".to_string(),
        "one\nthree\nfour".to_string(),
    );
    let text = encode_patch(&p);
    let q = parse_patch_text(text.as_str()).expect("own encoding parses");
    assert_eq!(q.files.len(), p.files.len());
    for i in 0..p.files.len() {
        assert_eq!(p.files.key_at(i).as_str(), q.files.key_at(i).as_str());
        assert_eq!(p.files.val_at(i).0, q.files.val_at(i).0);
        assert_eq!(p.files.val_at(i).1, q.files.val_at(i).1);
    }
}

#[test]
fn patch_text_rejects_malformed_input() {
    assert!(parse_patch_text("").is_none());
    assert!(parse_patch_text("not a patch").is_none());
    assert!(parse_patch_text("1\n").is_none());
    // Trailing content is rejected too.
    let p = Patch::from_file("a".to_string(), "x".to_string(), "y".to_string());
    let mut text = encode_patch(&p);
    text.push_str("extra");
    assert!(parse_patch_text(text.as_str()).is_none());
}

#[test]
fn hash_matches_known_digests() {
    assert_eq!(
        hash(String::new()),
        "e3b0c44298fc1c149afbf4c8996fb92427ae41e4649b934ca495991b7852b855"
    );
    assert_eq!(
        hash("abc".to_string()),
        "ba7816bf8f01cfea414140de5dae2223b00361a396177a9cb410ff61f20015ad"
    );
}

#[test]
fn identifiers_have_their_shapes() {
    assert_eq!(uuid().len(), 36);
    assert_eq!(random_id().len(), 64);
    let a = random_id();
    let b = random_id();
    assert_ne!(a, b);
    assert!(unix_epoch_timestamp() > 0);
}

#[test]
fn error_descriptions_are_fixed() {
    assert_eq!(
        LilyError::MustBeUnique.to_string(),
        "One of the given values must be unique."
    );
    assert_eq!(
        LilyError::NotAllowed.to_string(),
        "You are not allowed to access this resource."
    );
    assert_eq!(
        LilyError::ValueError.to_string(),
        "One of the field values given is invalid."
    );
    assert_eq!(
        LilyError::NotFound.to_string(),
        "No asset with this ID could be found."
    );
    assert_eq!(
        LilyError::Other.to_string(),
        "An unspecified error has occured"
    );
    assert_eq!(
        AuthError::NotFound.to_string(),
        "No asset with this ID could be found."
    );
    assert_eq!(
        lily::docs::DatabaseError::NotFound.to_string(),
        "No document with this path has been found."
    );
}

#[test]
fn string_order_is_lexicographic() {
    assert!(str_lt("a", "b"));
    assert!(str_lt("a", "ab"));
    assert!(!str_lt("b", "a"));
    assert!(!str_lt("a", "a"));
    assert!(str_lt("", "a"));
}

#[test]
fn sorted_map_keeps_keys_ordered() {
    let mut m: SMap<u64> = SMap::new();
    m.insert("pear".to_string(), 1);
    m.insert("apple".to_string(), 2);
    m.insert("mango".to_string(), 3);
    m.insert("apple".to_string(), 4);
    assert_eq!(m.len(), 3);
    assert_eq!(m.key_at(0).as_str(), "apple");
    assert_eq!(m.key_at(1).as_str(), "mango");
    assert_eq!(m.key_at(2).as_str(), "pear");
    assert_eq!(m.get("apple"), Some(&4));
    m.remove("mango");
    assert_eq!(m.len(), 2);
    assert!(m.get("mango").is_none());
}

#[test]
fn registry_checks_switch_and_key() {
    let mut config = ServerConfiguration::default();
    config.key = "secret".to_string();
    let mut reg = Registry::new(config);
    let push = RegistryPushRequestBody {
        key: "secret".to_string(),
        content: "command = \"run\"".to_string(),
    };
    reg.push(push, "svc".to_string()).unwrap();
    assert_eq!(reg.get("svc".to_string()).unwrap(), "command = \"run\"");
    // A wrong key is refused.
    let bad = RegistryPushRequestBody {
        key: "wrong".to_string(),
        content: "x = 1".to_string(),
    };
    assert!(matches!(
        reg.push(bad, "svc".to_string()),
        Err(LilyError::NotAllowed)
    ));
    // Text that is not a TOML document is refused.
    let invalid = RegistryPushRequestBody {
        key: "secret".to_string(),
        content: "= = =".to_string(),
    };
    assert!(matches!(
        reg.push(invalid, "svc".to_string()),
        Err(LilyError::ValueError)
    ));
    // Deleting needs the key too.
    assert!(matches!(
        reg.delete(
            RegistryDeleteRequestBody { key: "wrong".to_string() },
            "svc".to_string()
        ),
        Err(LilyError::NotAllowed)
    ));
    reg.delete(
        RegistryDeleteRequestBody { key: "secret".to_string() },
        "svc".to_string(),
    )
    .unwrap();
    assert!(matches!(
        reg.get("svc".to_string()),
        Err(LilyError::NotFound)
    ));
}

#[test]
fn registry_pages_and_html() {
    let mut config = ServerConfiguration::default();
    config.key = "k".to_string();
    let mut reg = Registry::new(config);
    reg.push_page(
        RegistryPushRequestBody {
            key: "k".to_string(),
            content: "# title".to_string(),
        },
        "guide/intro.md".to_string(),
    )
    .unwrap();
    assert_eq!(
        reg.get_page("guide/intro.md".to_string()).unwrap(),
        "# title"
    );
    assert_eq!(
        reg.get_page_metadata(&"guide/intro.md".to_string())
            .unwrap()
            .size,
        7
    );
    reg.delete_page(
        RegistryDeleteRequestBody { key: "k".to_string() },
        "guide/intro.md".to_string(),
    )
    .unwrap();
    assert!(matches!(
        reg.get_page("guide/intro.md".to_string()),
        Err(LilyError::NotFound)
    ));
    // A disabled registry refuses everything.
    let mut off = ServerConfiguration::default();
    off.registry.enabled = false;
    let reg2 = Registry::new(off);
    assert!(matches!(
        reg2.get_html("home".to_string()),
        Err(LilyError::NotAllowed)
    ));
}

#[test]
fn merge_config_takes_the_other_services() {
    let mut base = ServicesConfiguration::default();
    base.services.insert(
        "keep".to_string(),
        sample_service("keep me"),
    );
    base.services.insert(
        "shared".to_string(),
        sample_service("old"),
    );
    let mut other = ServicesConfiguration::default();
    other.services.insert(
        "shared".to_string(),
        sample_service("new"),
    );
    other.services.insert(
        "added".to_string(),
        sample_service("fresh"),
    );
    base.merge_config(other);
    assert_eq!(base.services.len(), 3);
    assert_eq!(base.services.get("keep").unwrap().command.as_str(), "keep me");
    assert_eq!(base.services.get("shared").unwrap().command.as_str(), "new");
    assert_eq!(base.services.get("added").unwrap().command.as_str(), "fresh");
}

fn sample_service(command: &str) -> lily::services::Service {
    lily::services::Service {
        kind: lily::services::ServiceType::Service,
        command: command.to_string(),
        working_directory: ".".to_string(),
        environment: SMap::new(),
        restart: false,
        metadata: lily::services::ServiceMetadata::default(),
    }
}

#[test]
fn transform_applies_the_table_in_order() {
    let cnf = SlimeConfig {
        map: vec![
            ("<b>".to_string(), "\u{1b}[1m".to_string()),
            ("</b>".to_string(), "\u{1b}[0m".to_string()),
        ],
    };
    assert_eq!(
        transform(&cnf, "say <b>hi</b>".to_string()),
        "say \u{1b}[1mhi\u{1b}[0m"
    );
    let empty = SlimeConfig::new();
    assert_eq!(transform(&empty, "as is".to_string()), "as is");
}

#[test]
fn server_options_truthy_is_default() {
    assert_eq!(ServerOptions::truthy(), ServerOptions::default());
}
