use room_relay::connection::{Action, ConnectionSession, Event, Phase};
use room_relay::registry::RoomRegistry;
use room_relay::store::SessionsStore;

struct Client {
    name: &'static str,
    session: ConnectionSession,
    room: usize,
}

type Registry = RoomRegistry<usize>;

/// Plays the role of the transport: performs each action on the stores and
/// records deliveries as (recipient, payload).
fn perform(
    stores: &mut Vec<SessionsStore<&'static str>>,
    client: &Client,
    action: Action,
    delivered: &mut Vec<(&'static str, String)>,
) {
    let store = &mut stores[client.room];
    match action {
        Action::Broadcast { sender, payload } => {
            for to in store.get_sessions_except_id(sender) {
                delivered.push((to, payload.clone()));
            }
        }
        Action::Leave(id) => store.remove(id),
        _ => {}
    }
}

fn connect(
    reg: &mut Registry,
    stores: &mut Vec<SessionsStore<&'static str>>,
    room: &str,
    name: &'static str,
) -> Client {
    let i = reg.get_or_create(room.to_string(), stores.len());
    if *reg.get(i) == stores.len() {
        stores.push(SessionsStore::new());
    }
    let store_index = *reg.get(i);
    let mut session = ConnectionSession::new();
    let event = match stores[store_index].add_session(name) {
        Some(id) => Event::Joined(id),
        None => Event::JoinRefused,
    };
    assert_eq!(session.step(event), Action::Nothing);
    Client { name, session, room: store_index }
}

#[test]
fn end_to_end_two_clients() {
    let mut reg: Registry = RoomRegistry::new();
    let mut stores: Vec<SessionsStore<&'static str>> = Vec::new();
    let mut delivered: Vec<(&'static str, String)> = Vec::new();
    let mut c1 = connect(&mut reg, &mut stores, "abc", "C1");
    let mut c2 = connect(&mut reg, &mut stores, "abc", "C2");
    assert_eq!(c1.room, c2.room);

    let a = c1.session.step(Event::Text("ping".to_string()));
    perform(&mut stores, &c1, a, &mut delivered);
    assert_eq!(delivered, vec![("C2", "ping".to_string())]);

    let a = c2.session.step(Event::Terminated);
    perform(&mut stores, &c2, a, &mut delivered);
    assert_eq!(c2.session.phase(), Phase::Closed);
    assert_eq!(stores[c1.room].len(), 1);

    delivered.clear();
    let a = c1.session.step(Event::Text("x".to_string()));
    perform(&mut stores, &c1, a, &mut delivered);
    assert!(delivered.is_empty());
    assert_eq!(c1.session.phase(), Phase::Active { id: 0 });
    assert_eq!(c1.name, "C1");
}

#[test]
fn broadcast_in_other_room_is_not_received() {
    let mut reg: Registry = RoomRegistry::new();
    let mut stores: Vec<SessionsStore<&'static str>> = Vec::new();
    let mut delivered: Vec<(&'static str, String)> = Vec::new();
    let _r1a = connect(&mut reg, &mut stores, "room1", "R1a");
    let _r1b = connect(&mut reg, &mut stores, "room1", "R1b");
    let mut r2a = connect(&mut reg, &mut stores, "room2", "R2a");
    let _r2b = connect(&mut reg, &mut stores, "room2", "R2b");
    let a = r2a.session.step(Event::Text("only room2".to_string()));
    perform(&mut stores, &r2a, a, &mut delivered);
    assert_eq!(delivered, vec![("R2b", "only room2".to_string())]);
}
