use onlyati_datastore::datastore::{finish_log_control, Database, DatabaseAction, DbReply, DbStep};
use onlyati_datastore::enums::{ErrorKind, KeyType, ListType};
use onlyati_datastore::logger::LoggerResponse;
use onlyati_datastore::types::ValueType;

#[test]
fn basic_functions() {
    let db = Database::new("root".to_string());
    assert_eq!(true, db.is_ok());

    let mut db = db.unwrap();

    // Insert some data
    let response = db.insert(
        KeyType::Record("/root/status".to_string()),
        ValueType::RecordPointer("okay".to_string()),
    );
    assert_eq!(true, response.is_ok());

    let response = db.insert(
        KeyType::Record("/root/status/sub1".to_string()),
        ValueType::RecordPointer("okay".to_string()),
    );
    assert_eq!(true, response.is_ok());

    let response = db.insert(
        KeyType::Record("/root/status/sub2".to_string()),
        ValueType::RecordPointer("okay".to_string()),
    );
    assert_eq!(true, response.is_ok());

    let response = db.insert(
        KeyType::Record("/root/node_name".to_string()),
        ValueType::RecordPointer("teszt1".to_string()),
    );
    assert_eq!(true, response.is_ok());

    let response = db.insert(
        KeyType::Record("/root/network/gitea".to_string()),
        ValueType::RecordPointer("okay".to_string()),
    );
    assert_eq!(true, response.is_ok());

    // Check that value has been saved
    let value = db.get(KeyType::Record("/root/status".to_string()));
    assert_eq!(true, value.is_ok());

    let value = match value.unwrap() {
        ValueType::RecordPointer(value) => value,
        _ => panic!(),
    };
    assert_eq!("okay".to_string(), *value);

    // Get non exist key
    let response = db.get(KeyType::Record("/root/asd/eqq".to_string()));
    assert_eq!(true, response.is_err());

    // Check override value
    let response = db.insert(
        KeyType::Record("/root/status".to_string()),
        ValueType::RecordPointer("great".to_string()),
    );
    assert_eq!(true, response.is_ok());

    match db.get(KeyType::Record("/root/status".to_string())) {
        Ok(value) => match value {
            ValueType::RecordPointer(text) => assert_eq!("great".to_string(), *text),
            _ => panic!("It should be record pointer"),
        },
        Err(e) => panic!("{}", e.to_message()),
    }

    // Check some error
    let response = db.insert(
        KeyType::Record("/status".to_string()),
        ValueType::RecordPointer("okay".to_string()),
    );
    assert_eq!(true, response.is_err());

    let response = db.insert(
        KeyType::Record("root/batch/error/plan1".to_string()),
        ValueType::RecordPointer("failed".to_string()),
    );
    assert_eq!(true, response.is_err());

    // Check listing
    match db.list_keys(KeyType::Record("/root".to_string()), ListType::All) {
        Ok(table) => {
            assert_eq!(true, table.len() >= 1);
        }
        Err(e) => panic!("{}", e.to_message()),
    }

    match db.list_keys(KeyType::Record("/root/network".to_string()), ListType::All) {
        Ok(table) => {
            assert_eq!(true, table.len() >= 1);
        }
        Err(e) => panic!("{}", e.to_message()),
    }

    match db.list_keys(KeyType::Record("/root".to_string()), ListType::OneLevel) {
        Ok(table) => {
            assert_eq!(true, table.len() >= 1);
        }
        Err(e) => panic!("{}", e.to_message()),
    }

    // Try to list non-exist route
    let a = db.list_keys(KeyType::Record("/root/asd/eqq".to_string()), ListType::All);
    assert_eq!(true, a.is_err());

    // Delete key
    let response = db.delete_key(KeyType::Record("/root/status".to_string()));
    assert_eq!(true, response.is_ok());

    let response = db.get(KeyType::Record("/root/status".to_string()));
    assert_eq!(true, response.is_err());

    let response = db.delete_key(KeyType::Record("/root/status".to_string()));
    assert_eq!(true, response.is_err());

    // Drop table
    let response = db.delete_table(KeyType::Table("/root/status".to_string()));
    assert_eq!(true, response.is_ok());

    let response = db.get(KeyType::Record("/root/status/sub1".to_string()));
    assert_eq!(true, response.is_err());
}

#[test]
fn basic_round_trip() {
    let mut db = Database::new("root".to_string()).unwrap();
    let response = db.insert(
        KeyType::Record("/root/network".to_string()),
        ValueType::RecordPointer("ok".to_string()),
    );
    assert!(response.is_ok());

    match db.get(KeyType::Record("/root/network".to_string())) {
        Ok(ValueType::RecordPointer(text)) => assert_eq!("ok", text.as_str()),
        _ => panic!("expected the stored record back"),
    }
}

#[test]
fn overwrite_and_list() {
    let mut db = Database::new("root".to_string()).unwrap();
    for (key, value) in [
        ("/root/status", "okay"),
        ("/root/status/sub1", "okay"),
        ("/root/status/sub2", "okay"),
        ("/root/node_name", "teszt1"),
    ] {
        db.insert(
            KeyType::Record(key.to_string()),
            ValueType::RecordPointer(value.to_string()),
        )
        .expect("insert failed");
    }

    let list = db
        .list_keys(KeyType::Record("/root".to_string()), ListType::All)
        .expect("listing failed");
    let expected = [
        "/root/node_name",
        "/root/status",
        "/root/status/sub1",
        "/root/status/sub2",
    ];
    assert_eq!(expected.len(), list.len());
    for (key, want) in list.iter().zip(expected.iter()) {
        assert!(key.is_record());
        assert_eq!(*want, key.get_key());
    }
}

#[test]
fn drop_subtree() {
    let mut db = Database::new("root".to_string()).unwrap();
    for (key, value) in [
        ("/root/status", "okay"),
        ("/root/status/sub1", "okay"),
        ("/root/status/sub2", "okay"),
        ("/root/node_name", "teszt1"),
    ] {
        db.insert(
            KeyType::Record(key.to_string()),
            ValueType::RecordPointer(value.to_string()),
        )
        .expect("insert failed");
    }

    // Drop both the record named status and the status table below it.
    db.delete_key(KeyType::Record("/root/status".to_string()))
        .expect("delete_key failed");
    db.delete_table(KeyType::Table("/root/status".to_string()))
        .expect("delete_table failed");

    let list = db
        .list_keys(KeyType::Record("/root".to_string()), ListType::All)
        .expect("listing failed");
    assert_eq!(1, list.len());
    assert!(list[0].is_record());
    assert_eq!("/root/node_name", list[0].get_key());

    // Every prior descendant of the dropped table is gone.
    assert!(db
        .get(KeyType::Record("/root/status/sub1".to_string()))
        .is_err());
    assert!(db
        .get(KeyType::Record("/root/status/sub2".to_string()))
        .is_err());
}

#[test]
fn invalid_keys_rejected() {
    let mut db = Database::new("root".to_string()).unwrap();

    for bad in ["/status", "root/batch/error/plan1", "", "/"] {
        let response = db.insert(
            KeyType::Record(bad.to_string()),
            ValueType::RecordPointer("x".to_string()),
        );
        assert!(matches!(response, Err(ErrorKind::InvalidKey(_))));

        let response = db.get(KeyType::Record(bad.to_string()));
        assert!(matches!(response, Err(ErrorKind::InvalidKey(_))));
    }
}

#[test]
fn invalid_root_name() {
    let db = Database::new("ro/ot".to_string());
    assert!(matches!(db, Err(ErrorKind::InvalidRoot(_))));
}

#[test]
fn error_messages() {
    let e = ErrorKind::InvalidKey("nope".to_string());
    assert_eq!("Invalid key: nope", e.to_message().as_str());
    let e = ErrorKind::InvalidRoot("bad".to_string());
    assert_eq!("Invalid root: bad", e.to_message().as_str());
    let e = ErrorKind::InternalError("oops".to_string());
    assert_eq!("Internal error: oops", e.to_message().as_str());
    let e = ErrorKind::LogError("disk".to_string());
    assert_eq!("LogError: disk", e.to_message().as_str());
}

#[test]
fn inactive_hooks() {
    let mut db = Database::new("root".to_string()).unwrap();
    let outcome = db.execute(DatabaseAction::HookSet(
        "/p".to_string(),
        "/l".to_string(),
    ));
    match outcome.step {
        DbStep::Reply(DbReply::Done(r)) => {
            assert!(matches!(r, Err(ErrorKind::InactiveHookManager)));
        }
        _ => panic!("expected an immediate reply"),
    }
    assert!(outcome.log.is_none());
}

#[test]
fn dispatcher_set_and_get() {
    let mut db = Database::new("root".to_string()).unwrap();
    db.subscribe_to_logger();

    let outcome = db.execute(DatabaseAction::SetKey(
        "/root/network".to_string(),
        "ok".to_string(),
    ));
    match outcome.step {
        DbStep::Reply(DbReply::Done(r)) => assert!(r.is_ok()),
        _ => panic!("expected an immediate reply"),
    }
    match outcome.log {
        Some(onlyati_datastore::logger::LogItem::SetKey(k, v)) => {
            assert_eq!("/root/network", k.as_str());
            assert_eq!("ok", v.as_str());
        }
        _ => panic!("expected a SetKey log record"),
    }

    let outcome = db.execute(DatabaseAction::GetKey("/root/network".to_string()));
    match outcome.step {
        DbStep::Reply(DbReply::Value(Ok(ValueType::RecordPointer(text)))) => {
            assert_eq!("ok", text.as_str());
        }
        _ => panic!("expected the stored record back"),
    }
}

#[test]
fn log_control_translation() {
    assert!(finish_log_control(Ok(LoggerResponse::Done)).is_ok());
    let r = finish_log_control(Ok(LoggerResponse::Failed("full".to_string())));
    match r {
        Err(ErrorKind::LogError(m)) => assert_eq!("full", m.as_str()),
        _ => panic!("expected a LogError"),
    }
    let r = finish_log_control(Err("gone".to_string()));
    match r {
        Err(ErrorKind::LogError(m)) => assert_eq!("gone", m.as_str()),
        _ => panic!("expected a LogError"),
    }
}
