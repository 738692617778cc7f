use tgapi::chat::{
    rejects_connection, server_message, ChatMessage, ChatRegistry, ChatServer, ChatSession, ConnectError,
};

#[test]
fn sessions_take_the_smallest_free_id() {
    let mut server: ChatServer<&'static str> = ChatServer::new();
    assert_eq!(server.free_session_id(), Some(0));
    assert_eq!(server.on_connect(|_| "a").unwrap(), 0);
    assert_eq!(server.on_connect(|_| "b").unwrap(), 1);
    assert_eq!(server.on_connect(|_| "c").unwrap(), 2);
    server.on_disconnect(1);
    assert!(!server.contains(1));
    assert_eq!(server.on_connect(|_| "d").unwrap(), 1);
    assert_eq!(server.session(1), Some(&"d"));
    assert_eq!(server.len(), 3);
}

#[test]
fn connect_passes_the_id_to_the_session() {
    let mut server: ChatServer<ChatSession> = ChatServer::new();
    let id = server.on_connect(|id| ChatSession { id }).unwrap();
    assert_eq!(server.session(id).unwrap().id(), id);
}

#[test]
fn connect_then_disconnect_restores_the_registry() {
    let mut server: ChatServer<u8> = ChatServer::new();
    server.on_connect(|_| 7).unwrap();
    let id = server.on_connect(|_| 8).unwrap();
    server.on_disconnect(id);
    assert_eq!(server.len(), 1);
    assert_eq!(server.session(0), Some(&7));
    assert_eq!(server.session(id), None);
}

#[test]
fn broadcast_reaches_everyone_but_the_sender() {
    let mut server: ChatServer<()> = ChatServer::new();
    for _ in 0..4 {
        server.on_connect(|_| ()).unwrap();
    }
    let b = server.on_call(ChatMessage::Send { from: 2, text: "hello".to_string() });
    assert_eq!(b.text, "from 2: hello");
    let mut r = b.recipients.clone();
    r.sort();
    assert_eq!(r, vec![0, 1, 3]);
}

#[test]
fn server_messages_reach_everyone() {
    let mut server: ChatServer<()> = ChatServer::new();
    server.on_connect(|_| ()).unwrap();
    server.on_connect(|_| ()).unwrap();
    let b = server.on_call(server_message("hi".to_string()));
    assert_eq!(b.text, "from 65535: hi");
    let mut r = b.recipients.clone();
    r.sort();
    assert_eq!(r, vec![0, 1]);
}

#[test]
fn broadcast_on_empty_server() {
    let server: ChatServer<()> = ChatServer::new();
    let b = server.on_call(ChatMessage::Send { from: 0, text: String::new() });
    assert_eq!(b.text, "from 0: ");
    assert!(b.recipients.is_empty());
}

#[test]
fn session_text_becomes_a_send() {
    let s = ChatSession { id: 5 };
    assert_eq!(s.id(), 5);
    assert_eq!(s.on_text("x".to_string()), ChatMessage::Send { from: 5, text: "x".to_string() });
}

#[test]
fn kick_me_yes_is_rejected() {
    assert!(rejects_connection(Some("Yes")));
    assert!(!rejects_connection(Some("yes")));
    assert!(!rejects_connection(Some("No")));
    assert!(!rejects_connection(None));
}

#[test]
fn server_id_is_never_given_to_a_client() {
    let mut server: ChatServer<()> = ChatServer::new();
    for expected in 0..u16::MAX {
        assert_eq!(server.on_connect(|_| ()), Ok(expected));
    }
    assert_eq!(server.len(), 65535);
    assert_eq!(server.free_session_id(), None);
    assert_eq!(server.on_connect(|_| ()), Err(ConnectError::NoFreeId));
    assert_eq!(server.len(), 65535);
    assert!(!server.contains(u16::MAX));
    server.on_disconnect(40000);
    assert_eq!(server.on_connect(|_| ()), Ok(40000));
}

#[test]
fn every_session_holds_its_own_id() {
    let mut server: ChatServer<ChatSession> = ChatServer::new();
    for _ in 0..5 {
        server.on_connect(|id| ChatSession { id }).unwrap();
    }
    server.on_disconnect(2);
    server.on_connect(|id| ChatSession { id }).unwrap();
    server.on_disconnect(4);
    for id in [0u16, 1, 2, 3] {
        assert_eq!(server.session(id).unwrap().id(), id);
    }
    assert!(server.session(4).is_none());
}

#[test]
fn registry_keeps_each_session_under_its_id() {
    let mut registry: ChatRegistry<&'static str> = ChatRegistry::new();
    assert_eq!(registry.on_connect("a"), Ok(0));
    assert_eq!(registry.on_connect("b"), Ok(1));
    assert_eq!(registry.on_connect("c"), Ok(2));
    registry.on_disconnect(1);
    assert_eq!(registry.free_session_id(), Some(1));
    assert_eq!(registry.on_connect("d"), Ok(1));
    for id in 0..3u16 {
        let entry = registry.session(id).unwrap();
        assert_eq!(entry.session.id(), id);
    }
    assert_eq!(registry.session(1).unwrap().handle, "d");
    assert_eq!(registry.len(), 3);
    assert!(registry.contains(2));
    let b = registry.on_call(ChatMessage::Send { from: 0, text: "x".to_string() });
    assert_eq!(b.text, "from 0: x");
    let mut r = b.recipients.clone();
    r.sort();
    assert_eq!(r, vec![1, 2]);
}

#[test]
fn registry_refuses_when_full() {
    let mut registry: ChatRegistry<()> = ChatRegistry::new();
    for expected in 0..u16::MAX {
        assert_eq!(registry.on_connect(()), Ok(expected));
    }
    assert_eq!(registry.on_connect(()), Err(ConnectError::NoFreeId));
    assert!(!registry.contains(u16::MAX));
    assert_eq!(registry.len(), 65535);
}
