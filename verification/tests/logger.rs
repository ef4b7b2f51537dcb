use onlyati_datastore::logger::{LogItem, LogState, LoggerManager, LoggerResponse};

#[test]
fn logger_lifecycle() {
    let mut manager = LoggerManager::new("/tmp/datastore-log.txt".to_string());

    manager.start();

    let result = manager.write(LogItem::GetHook(
        "/root/status/server1".to_string(),
        "alive".to_string(),
    ));
    assert_eq!(true, result.is_ok());

    let result = manager.stop();
    assert_eq!(true, result.is_ok());

    let result = manager.write(LogItem::GetHook(
        "/root/status/server9".to_string(),
        "alive".to_string(),
    ));
    assert_eq!(true, result.is_err());

    // Stopping again fails: nothing runs any more.
    assert!(manager.stop().is_err());
}

#[test]
fn logger_suspend_resume() {
    // One emitted line stands for one line appended to the log file.
    let mut file_lines: Vec<String> = Vec::new();
    let mut manager = LoggerManager::new("/tmp/datastore-log2.txt".to_string());

    manager.start();

    // write item A: the file gains one line.
    if let Ok(Some(line)) = manager.write(LogItem::GetKey("/root/tickets/345".to_string())) {
        file_lines.push(line);
    } else {
        panic!("an open logger must emit a line");
    }
    assert_eq!(1, file_lines.len());

    // suspend, then write item B: the file still has one line.
    assert!(manager.suspend().is_ok());
    match manager.write(LogItem::GetKey("/root/tickets/345".to_string())) {
        Ok(None) => {}
        _ => panic!("a suspended logger must buffer, not emit"),
    }
    assert_eq!(1, file_lines.len());

    // resume: the buffered line reaches the file, two lines now.
    match manager.resume() {
        Ok(lines) => {
            assert_eq!(1, lines.len());
            for line in lines {
                file_lines.push(line);
            }
        }
        Err(e) => panic!("{}", e),
    }
    assert_eq!(2, file_lines.len());

    assert!(manager.stop().is_ok());
}

#[test]
fn logger_closed_write_fails() {
    let mut manager = LoggerManager::new("/tmp/datastore-log3.txt".to_string());
    match manager.write(LogItem::GetKey("/root/x".to_string())) {
        Err(m) => assert_eq!("Stream is closed, start required for logger", m.as_str()),
        _ => panic!("a closed logger must reject writes"),
    }
    assert_eq!(LogState::Close, manager.state);
}

#[test]
fn logger_resume_requires_suspend() {
    let mut manager = LoggerManager::new("/tmp/datastore-log4.txt".to_string());
    match manager.resume() {
        Err(m) => assert_eq!("Only possible resume from LogState::Suspend", m.as_str()),
        _ => panic!("resume must only work from the suspended state"),
    }
}

#[test]
fn logger_buffered_lines_keep_order() {
    let mut manager = LoggerManager::new("/tmp/datastore-log5.txt".to_string());
    manager.start();
    assert!(manager.suspend().is_ok());

    for key in ["/root/a", "/root/b", "/root/c"] {
        match manager.write(LogItem::GetKey(key.to_string())) {
            Ok(None) => {}
            _ => panic!("a suspended logger must buffer"),
        }
    }

    let lines = manager.resume().expect("resume failed");
    assert_eq!(3, lines.len());
    assert!(lines[0].ends_with("GetKey [ '/root/a' ]\n"));
    assert!(lines[1].ends_with("GetKey [ '/root/b' ]\n"));
    assert!(lines[2].ends_with("GetKey [ '/root/c' ]\n"));
}

#[test]
fn logger_write_many() {
    let mut manager = LoggerManager::new("/tmp/datastore-log6.txt".to_string());

    // Closed: the batch fails with the first error.
    let (reply, lines) = manager.write_many(vec![LogItem::GetKey("/root/x".to_string())]);
    match reply {
        LoggerResponse::Failed(m) => {
            assert_eq!("Stream is closed, start required for logger", m.as_str())
        }
        _ => panic!("a closed logger must report the failure"),
    }
    assert_eq!(0, lines.len());

    // Open: one line per record, in order.
    manager.start();
    let (reply, lines) = manager.write_many(vec![
        LogItem::GetKey("/root/test/1".to_string()),
        LogItem::GetKey("/root/test/2".to_string()),
        LogItem::GetKey("/root/test/3".to_string()),
    ]);
    assert_eq!(LoggerResponse::Done, reply);
    assert_eq!(3, lines.len());
    assert!(lines[0].ends_with("GetKey [ '/root/test/1' ]\n"));
    assert!(lines[2].ends_with("GetKey [ '/root/test/3' ]\n"));
}

#[test]
fn log_item_formats() {
    let item = LogItem::SetKey("/root/a".to_string(), "v".to_string());
    assert_eq!("SetKey [ '/root/a', 'v' ]", item.render().as_str());

    let item = LogItem::GetKey("/root/a".to_string());
    assert_eq!("GetKey [ '/root/a' ]", item.render().as_str());

    let item = LogItem::RemKey("/root/a".to_string());
    assert_eq!("RemKey [ '/root/a' ]", item.render().as_str());

    let item = LogItem::RemPath("/root/a".to_string());
    assert_eq!("RemPath [ '/root/a' ]", item.render().as_str());

    let item = LogItem::ListKeys("/root/a".to_string());
    assert_eq!("ListKeys [ '/root/a' ]", item.render().as_str());

    let item = LogItem::SetHook("/root/a".to_string(), "http://x".to_string());
    assert_eq!("SetHook [ '/root/a', 'http://x' ]", item.render().as_str());

    let item = LogItem::RemHook("/root/a".to_string(), "http://x".to_string());
    assert_eq!("RemHook [ '/root/a', 'http://x' ]", item.render().as_str());

    let item = LogItem::ListHooks("/root/a".to_string());
    assert_eq!("ListHooks [ '/root/a' ]", item.render().as_str());

    let item = LogItem::HookExecute(
        "/root/a".to_string(),
        vec!["http://x".to_string(), "http://y".to_string()],
    );
    assert_eq!(
        "HookExecute [ '/root/a', '[\"http://x\", \"http://y\"]' ]",
        item.render().as_str()
    );

    let item = LogItem::HookExecute("/root/a".to_string(), vec![]);
    assert_eq!("HookExecute [ '/root/a', '[]' ]", item.render().as_str());
}
