use screeps_os::kernel::ipc::{
    get_ipc, get_mut_ipc, new_ipc_as_enum, AssetDonation, InterProcessCommunicationA,
    InterProcessCommunicationB, Message, SpawnResponse,
};

fn response(name: &str) -> Message {
    Message::SpawnResponse(SpawnResponse { name: name.to_string() })
}

#[test]
fn messages_to_a_pid_queue_in_order() {
    let mut ipc = InterProcessCommunicationA::new();
    assert!(ipc.get_messages_pid(4).is_none());
    ipc.send_message_pid(4, response("a"));
    ipc.send_message_pid(4, response("b"));
    let q = ipc.get_messages_pid(4).unwrap();
    assert_eq!(q.len(), 2);
    assert!(matches!(&q[0], Message::SpawnResponse(r) if r.name == "a"));
    assert!(matches!(&q[1], Message::SpawnResponse(r) if r.name == "b"));
}

#[test]
fn queue_can_be_drained_in_place() {
    let mut ipc = InterProcessCommunicationA::new();
    ipc.send_message_pid(1, response("x"));
    ipc.get_messages_pid(1).unwrap().clear();
    assert_eq!(ipc.get_messages_pid(1).unwrap().len(), 0);
}

#[test]
fn removing_a_pid_drops_its_queue() {
    let mut ipc = InterProcessCommunicationA::new();
    ipc.send_message_pid(9, response("x"));
    ipc.rm_pid(9);
    assert!(ipc.get_messages_pid(9).is_none());
}

#[test]
fn channel_message_without_pid_queue_starts_channel() {
    let mut ipc = InterProcessCommunicationA::new();
    ipc.send_message_channel(2, response("c1"));
    ipc.send_message_channel(2, response("c2"));
    let q = ipc.get_messages_channel(2).unwrap();
    assert_eq!(q.len(), 1);
    assert!(matches!(&q[0], Message::SpawnResponse(r) if r.name == "c2"));
    assert!(ipc.get_messages_pid(2).is_none());
}

#[test]
fn channel_message_with_pid_queue_goes_to_pid_queue() {
    let mut ipc = InterProcessCommunicationA::new();
    ipc.send_message_pid(5, response("p"));
    ipc.send_message_channel(5, Message::AssetDonation(AssetDonation {
        name: "d".to_string(),
        asset_type: 1,
        location: 2,
    }));
    assert_eq!(ipc.get_messages_pid(5).unwrap().len(), 2);
    assert!(ipc.get_messages_channel(5).is_none());
}

#[test]
fn removing_a_channel_drops_its_queue() {
    let mut ipc = InterProcessCommunicationA::new();
    ipc.send_message_channel(7, response("x"));
    ipc.rm_channel(7);
    assert!(ipc.get_messages_channel(7).is_none());
}

#[test]
fn ipc_enum_accessors() {
    let mut e = new_ipc_as_enum();
    let _ = get_ipc(&e);
    get_mut_ipc(&mut e).send_message_pid(1, response("z"));
    assert_eq!(get_mut_ipc(&mut e).get_messages_pid(1).unwrap().len(), 1);
    let _b = InterProcessCommunicationB::new();
}
