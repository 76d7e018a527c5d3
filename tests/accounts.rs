use fileshare::connection::{Url, UrlError};
use fileshare::enc_string::EncString;
use fileshare::meta_dir::{MetaDir, MetaDirError};
use fileshare::user::{AuthToken, PermissionError, PermissionResult, RepositoryStatus, User, UserError, UserRole};

#[test]
fn url_parse_splits_address() {
    assert_eq!(
        Url::parse("https://files.example.org/alice/photos"),
        Ok(("https://".to_string(), "files.example.org".to_string(), "alice".to_string(), "photos".to_string()))
    );
    assert_eq!(
        Url::parse("http://host/bob/repo/extra"),
        Ok(("http://".to_string(), "host".to_string(), "bob".to_string(), "repo".to_string()))
    );
    assert_eq!(
        Url::parse("host/u/r"),
        Ok((String::new(), "host".to_string(), "u".to_string(), "r".to_string()))
    );
    assert_eq!(Url::parse("host"), Err(UrlError::InvalidUser));
    assert_eq!(Url::parse("host/user"), Err(UrlError::InvalidRepository));
    assert_eq!(Url::parse("https:/"), Err(UrlError::InvalidDomain));
}

#[test]
fn meta_dir_paths() {
    let m = MetaDir::at("/home/me/repo".to_string());
    assert_eq!(m.root(), Ok("/home/me/repo".to_string()));
    assert_eq!(m.connection_config_path(), Ok("/home/me/repo/.fileshare/connection.json".to_string()));
    assert_eq!(m.repository_config_path(), Ok("/home/me/repo/.fileshare/repository.json".to_string()));
    assert_eq!(m.local_database_path(), Ok("/home/me/repo/.fileshare/database.json".to_string()));
    assert_eq!(m.tmp_download_dir(), Ok("/home/me/repo/.fileshare/tmp".to_string()));
    assert_eq!(MetaDir::meta_dir_path(&"/r".to_string()), "/r/.fileshare");
    let none = MetaDir { root_dir: None };
    assert_eq!(none.root(), Err(MetaDirError::RootNotSet));
    assert_eq!(none.tmp_download_dir(), Err(MetaDirError::RootNotSet));
}

#[test]
fn enc_string_encodes_and_decodes() {
    let e = EncString::encode("my file (1).txt");
    assert_eq!(e.encoded(), "my%20file%20%281%29.txt");
    assert_eq!(e.plain(), Ok("my file (1).txt".to_string()));
    assert!(!e.is_empty());
    assert!(EncString::encode("").is_empty());
    assert!(EncString("%FF".to_string()).plain().is_err());
    assert_eq!(EncString::encode("Plain-name_1.txt~").encoded(), "Plain-name_1.txt~");
    assert_eq!(EncString("no+escapes".to_string()).plain(), Ok("no+escapes".to_string()));
}

#[test]
fn users_roles_and_ids() {
    let mut u = User::new(EncString::encode("al"), EncString::encode("Al"), EncString::encode("al@x.org"));
    assert!(!u.can_create_repository());
    u.user_role = UserRole::Vip;
    assert!(u.can_create_repository());
    u.user_role = UserRole::Admin;
    assert!(u.can_create_repository());
    assert_eq!(u.id(), 0);
    assert_eq!(u.set_id(12), Ok(()));
    assert_eq!(u.id(), 12);
    assert_eq!(u.set_id(13), Err(UserError::IdAlreadySet));
    assert_eq!(u.id(), 12);
    assert_eq!(u.login.encoded(), "al");
    assert_eq!(u.email.encoded(), "al%40x.org");
    u.update_password("hash".to_string());
    assert_eq!(u.password(), "hash");
    assert_eq!(UserRole::from_name("vip"), UserRole::Vip);
    assert_eq!(UserRole::from_name("admin"), UserRole::Admin);
    assert_eq!(UserRole::from_name("guest"), UserRole::Guest);
    assert_eq!(UserRole::from_name("root"), UserRole::Guest);
    assert_eq!(RepositoryStatus::from_name("hidden"), RepositoryStatus::Hidden);
    assert_eq!(RepositoryStatus::from_name("public"), RepositoryStatus::Public);
    assert_eq!(RepositoryStatus::from_name("other"), RepositoryStatus::Private);
    let t = AuthToken::new(12, EncString::encode("tok"), EncString::encode("laptop"), 99);
    assert_eq!(t.owner(), 12);
}

#[test]
fn permission_answers() {
    assert!(PermissionResult::Granted.granted());
    assert!(!PermissionResult::Denied.granted());
    assert_eq!(PermissionResult::Granted.require(), Ok(()));
    assert_eq!(PermissionResult::Denied.require(), Err(PermissionError::AccessDenied));
}
