//! The server authority: the table of live player records, the connection
//! lifecycle that creates and destroys them, and the integration of movement
//! intents into positions.

use vstd::prelude::*;
use crate::SPEED;
use crate::components::{CharacterView, MoveEvent, PlayableCharacter, PlayerID};

verus! {

/// One live entry of the server's table: a player record tagged with the
/// connection id it belongs to.
pub struct PlayerRecord {
    pub id: PlayerID,
    pub character: PlayableCharacter,
}

/// Mathematical image of a [`PlayerRecord`].
pub struct RecordView {
    pub id: u64,
    pub character: CharacterView,
}

impl View for PlayerRecord {
    type V = RecordView;

    open spec fn view(&self) -> RecordView {
        RecordView { id: self.id.0, character: self.character@ }
    }
}

impl Clone for PlayerRecord {
    fn clone(&self) -> (r: Self)
        ensures
            r@ === self@,
    {
        PlayerRecord {
            id: PlayerID(self.id.0),
            character: PlayableCharacter {
                position: self.character.position,
                name: self.character.name.clone(),
                power_level: self.character.power_level,
            },
        }
    }
}

/// A connection lifecycle event, as the transport surfaces it to the server.
#[derive(Clone, Copy, PartialEq, Eq, Structural, Debug)]
pub enum ServerEvent {
    ClientConnected { client_id: u64 },
    ClientDisconnected { client_id: u64 },
}

/// A movement intent together with the connection id of its sender, as the
/// transport delivers it.
#[derive(Clone, Copy, PartialEq, Eq, Structural, Debug)]
pub struct FromClient {
    pub client_id: u64,
    pub event: MoveEvent,
}

/// The connection ids of the records, in table order.
pub open spec fn ids(s: Seq<RecordView>) -> Seq<u64> {
    s.map_values(|r: RecordView| r.id)
}

/// The mathematical images of a sequence of records, in order.
pub open spec fn views_of(players: Seq<PlayerRecord>) -> Seq<RecordView> {
    players.map_values(|p: PlayerRecord| p@)
}

/// No two records share a connection id.
pub open spec fn distinct_ids(s: Seq<RecordView>) -> bool {
    forall|i: int, j: int| 0 <= i < j < s.len() ==> s[i].id != s[j].id
}

/// The record a freshly connected client starts with: at the origin, unnamed.
pub open spec fn default_record(client_id: u64) -> RecordView {
    RecordView {
        id: client_id,
        character: CharacterView { position: (0, 0, 0), name: Seq::<char>::empty(), power_level: 0 },
    }
}

/// Effect of `ClientConnected`: a fresh default record joins the table.
pub open spec fn connect(s: Seq<RecordView>, client_id: u64) -> Seq<RecordView> {
    s.push(default_record(client_id))
}

/// Effect of `ClientDisconnected`: every record tagged with the id leaves the
/// table; an id with no record is a no-op.
pub open spec fn disconnect(s: Seq<RecordView>, client_id: u64) -> Seq<RecordView> {
    s.filter(|r: RecordView| r.id != client_id)
}

/// Effect of one lifecycle event on the table.
pub open spec fn step_event(s: Seq<RecordView>, e: ServerEvent) -> Seq<RecordView> {
    match e {
        ServerEvent::ClientConnected { client_id } => connect(s, client_id),
        ServerEvent::ClientDisconnected { client_id } => disconnect(s, client_id),
    }
}

/// Effect of a queue of lifecycle events, applied in arrival order.
pub open spec fn run_events(s: Seq<RecordView>, events: Seq<ServerEvent>) -> Seq<RecordView>
    decreases events.len(),
{
    if events.len() == 0 {
        s
    } else {
        run_events(step_event(s, events[0]), events.drop_first())
    }
}

/// Where one intent moves a character during a tick of `delta_ms`
/// milliseconds: the displacement is `SPEED * delta_ms` thousandths of a unit
/// along each commanded axis — the right component moves the first axis, the
/// forward component the third, the vertical axis never moves. Name and
/// power level are untouched.
pub open spec fn displaced(c: CharacterView, ev: MoveEvent, delta_ms: u32) -> CharacterView {
    CharacterView {
        position: (
            c.position.0 + (SPEED as int) * (delta_ms as int) * (ev.right as int),
            c.position.1,
            c.position.2 + (SPEED as int) * (delta_ms as int) * (ev.forward as int),
        ),
        name: c.name,
        power_level: c.power_level,
    }
}

/// Effect of one intent on the table: every record whose id matches the
/// sender moves; every other record, and the table's order and length, are
/// untouched. An intent whose sender has no record changes nothing.
pub open spec fn apply_intent(
    s: Seq<RecordView>,
    client_id: u64,
    ev: MoveEvent,
    delta_ms: u32,
) -> Seq<RecordView> {
    s.map_values(
        |r: RecordView|
            if r.id == client_id {
                RecordView { id: r.id, character: displaced(r.character, ev, delta_ms) }
            } else {
                r
            },
    )
}

/// Effect of one tick's queue of intents, applied in arrival order with the
/// same tick duration for all of them.
pub open spec fn run_intents(
    s: Seq<RecordView>,
    intents: Seq<FromClient>,
    delta_ms: u32,
) -> Seq<RecordView>
    decreases intents.len(),
{
    if intents.len() == 0 {
        s
    } else {
        run_intents(
            apply_intent(s, intents[0].client_id, intents[0].event, delta_ms),
            intents.drop_first(),
            delta_ms,
        )
    }
}

/// Whether an integer is representable as a machine position coordinate.
pub open spec fn fits_i64(x: int) -> bool {
    i64::MIN <= x <= i64::MAX
}

/// Whether moving the matching records of the table by one intent keeps
/// every coordinate representable.
pub open spec fn intent_in_bounds(
    s: Seq<RecordView>,
    client_id: u64,
    ev: MoveEvent,
    delta_ms: u32,
) -> bool {
    forall|t: int|
        0 <= t < s.len() && s[t].id == client_id ==> {
            let c = displaced(s[t].character, ev, delta_ms);
            fits_i64(c.position.0) && fits_i64(c.position.2)
        }
}

/// The server's table of live player records: exactly one per currently
/// connected client.
pub struct ServerWorld {
    pub players: Vec<PlayerRecord>,
}

impl View for ServerWorld {
    type V = Seq<RecordView>;

    open spec fn view(&self) -> Seq<RecordView> {
        self.players@.map_values(|p: PlayerRecord| p@)
    }
}

impl ServerWorld {
    /// A server with no connected clients.
    pub fn new() -> (w: ServerWorld)
        ensures
            w@ === Seq::<RecordView>::empty(),
    {
        let w = ServerWorld { players: Vec::new() };
        proof {
            assert(w@ =~= Seq::<RecordView>::empty());
        }
        w
    }

    /// Creates the record for a newly connected client: default position at
    /// the origin, empty name, tagged with the connection id.
    pub fn connect_client(&mut self, client_id: u64)
        ensures
            final(self)@ === connect(old(self)@, client_id),
    {
        self.players.push(PlayerRecord { id: PlayerID(client_id), character: PlayableCharacter::default() });
        proof {
            assert(final(self)@ =~= connect(old(self)@, client_id));
        }
    }

    /// Destroys every record of a disconnecting client. An id with no
    /// matching record is a no-op, never a fault.
    pub fn disconnect_client(&mut self, client_id: u64)
        ensures
            final(self)@ === disconnect(old(self)@, client_id),
    {
        let ghost orig = self@;
        let mut kept: Vec<PlayerRecord> = Vec::new();
        let n = self.players.len();
        for j in 0..n
            invariant
                n == self.players.len(),
                self@ === orig,
                kept@.map_values(|p: PlayerRecord| p@) === disconnect(orig.take(j as int), client_id),
        {
            proof {
                lemma_disconnect_take_step(orig, client_id, j as int);
            }
            if self.players[j].id.0 != client_id {
                let ghost kept_before = kept@;
                kept.push(self.players[j].clone());
                proof {
                    assert(kept@.map_values(|p: PlayerRecord| p@) =~= kept_before.map_values(
                        |p: PlayerRecord| p@,
                    ).push(orig[j as int]));
                }
            }
        }
        proof {
            assert(orig.take(n as int) =~= orig);
        }
        self.players = kept;
    }

    /// Consumes one tick's queue of connection lifecycle events in arrival
    /// order: a record is created on connect and destroyed on disconnect.
    pub fn server_event(&mut self, events: &Vec<ServerEvent>)
        ensures
            final(self)@ === run_events(old(self)@, events@),
    {
        let ghost orig = self@;
        let n = events.len();
        for i in 0..n
            invariant
                n == events@.len(),
                self@ === run_events(orig, events@.take(i as int)),
        {
            let e = events[i];
            match e {
                ServerEvent::ClientConnected { client_id } => self.connect_client(client_id),
                ServerEvent::ClientDisconnected { client_id } => self.disconnect_client(client_id),
            }
            proof {
                assert(events@.take(i as int).push(events@[i as int]) =~= events@.take(
                    i as int + 1,
                ));
                lemma_run_events_snoc(orig, events@.take(i as int), events@[i as int]);
            }
        }
        proof {
            assert(events@.take(n as int) =~= events@);
        }
    }
}

impl ServerWorld {
    /// Integrates one movement intent: every record whose id matches the
    /// sending connection moves by `SPEED * delta_ms` thousandths of a unit
    /// along each commanded axis; an intent whose sender has no record is
    /// silently dropped, leaving the table untouched.
    pub fn apply_move_intent(&mut self, client_id: u64, event: MoveEvent, delta_ms: u32)
        requires
            intent_in_bounds(old(self)@, client_id, event, delta_ms),
        ensures
            final(self)@ === apply_intent(old(self)@, client_id, event, delta_ms),
    {
        let ghost orig = self@;
        let step: i64 = SPEED * (delta_ms as i64);
        proof {
            assert((step as int) * (event.right as int) <= i64::MAX && i64::MIN <= (step as int)
                * (event.right as int) && (step as int) * (event.forward as int) <= i64::MAX
                && i64::MIN <= (step as int) * (event.forward as int)) by (nonlinear_arith)
                requires
                    0 <= step as int <= 25 * 0xFFFF_FFFFint,
                    -128 <= event.right as int <= 127,
                    -128 <= event.forward as int <= 127,
            ;
        }
        let dx: i64 = step * (event.right as i64);
        let dz: i64 = step * (event.forward as i64);
        let n = self.players.len();
        for j in 0..n
            invariant
                n == self.players.len(),
                orig.len() == n,
                dx == (SPEED as int) * (delta_ms as int) * (event.right as int),
                dz == (SPEED as int) * (delta_ms as int) * (event.forward as int),
                intent_in_bounds(orig, client_id, event, delta_ms),
                forall|t: int|
                    0 <= t < j ==> self@[t] == apply_intent(orig, client_id, event, delta_ms)[t],
                forall|t: int| j <= t < n ==> self@[t] == orig[t],
        {
            let ghost before = self@;
            let ghost before_players = self.players@;
            if self.players[j].id.0 == client_id {
                proof {
                    assert(self@[j as int] == orig[j as int]);
                    assert(fits_i64(displaced(orig[j as int].character, event, delta_ms).position.0));
                    assert(fits_i64(displaced(orig[j as int].character, event, delta_ms).position.2));
                }
                let new0 = self.players[j].character.position.0 + dx;
                let new2 = self.players[j].character.position.2 + dz;
                self.players[j].character.position.0 = new0;
                self.players[j].character.position.2 = new2;
            }
            proof {
                assert(self@[j as int] == apply_intent(orig, client_id, event, delta_ms)[j as int]);
                assert forall|t: int|
                    0 <= t < j as int + 1 implies self@[t] == apply_intent(
                        orig,
                        client_id,
                        event,
                        delta_ms,
                    )[t] by {
                    if t != j as int {
                        assert(self.players@[t] == before_players[t]);
                        assert(self@[t] == before[t]);
                        assert(before[t] == apply_intent(orig, client_id, event, delta_ms)[t]);
                    }
                }
                assert forall|t: int| j as int + 1 <= t < n implies self@[t] == orig[t] by {
                    assert(self.players@[t] == before_players[t]);
                    assert(self@[t] == before[t]);
                    assert(before[t] == orig[t]);
                }
            }
        }
        proof {
            assert(final(self)@ =~= apply_intent(orig, client_id, event, delta_ms));
        }
    }

    /// Consumes one tick's queue of pending movement intents in arrival
    /// order, integrating each with the same tick duration so that motion is
    /// frame-rate independent.
    pub fn handle_move_events(&mut self, intents: &Vec<FromClient>, delta_ms: u32)
        requires
            forall|k: int|
                0 <= k < intents@.len() ==> #[trigger] intent_in_bounds(
                    run_intents(old(self)@, intents@.take(k), delta_ms),
                    intents@[k].client_id,
                    intents@[k].event,
                    delta_ms,
                ),
        ensures
            final(self)@ === run_intents(old(self)@, intents@, delta_ms),
    {
        let ghost orig = self@;
        let n = intents.len();
        for i in 0..n
            invariant
                n == intents@.len(),
                self@ === run_intents(orig, intents@.take(i as int), delta_ms),
                forall|k: int|
                    0 <= k < n ==> #[trigger] intent_in_bounds(
                        run_intents(orig, intents@.take(k), delta_ms),
                        intents@[k].client_id,
                        intents@[k].event,
                        delta_ms,
                    ),
        {
            let m = intents[i];
            proof {
                assert(intent_in_bounds(
                    run_intents(orig, intents@.take(i as int), delta_ms),
                    intents@[i as int].client_id,
                    intents@[i as int].event,
                    delta_ms,
                ));
            }
            self.apply_move_intent(m.client_id, m.event, delta_ms);
            proof {
                assert(intents@.take(i as int).push(intents@[i as int]) =~= intents@.take(
                    i as int + 1,
                ));
                lemma_run_intents_snoc(orig, intents@.take(i as int), intents@[i as int], delta_ms);
            }
        }
        proof {
            assert(intents@.take(n as int) =~= intents@);
        }
    }
}

/// Appending one intent to a queue runs the queue first and that intent last.
proof fn lemma_run_intents_snoc(
    s: Seq<RecordView>,
    intents: Seq<FromClient>,
    m: FromClient,
    delta_ms: u32,
)
    ensures
        run_intents(s, intents.push(m), delta_ms) == apply_intent(
            run_intents(s, intents, delta_ms),
            m.client_id,
            m.event,
            delta_ms,
        ),
    decreases intents.len(),
{
    if intents.len() == 0 {
        assert(intents.push(m)[0] == m);
        assert(intents.push(m).drop_first() =~= Seq::<FromClient>::empty());
        assert(run_intents(
            apply_intent(s, m.client_id, m.event, delta_ms),
            Seq::<FromClient>::empty(),
            delta_ms,
        ) == apply_intent(s, m.client_id, m.event, delta_ms));
        assert(run_intents(s, intents, delta_ms) == s);
    } else {
        let s1 = apply_intent(s, intents[0].client_id, intents[0].event, delta_ms);
        assert(intents.push(m)[0] == intents[0]);
        assert(intents.push(m).drop_first() =~= intents.drop_first().push(m));
        lemma_run_intents_snoc(s1, intents.drop_first(), m, delta_ms);
        assert(run_intents(s, intents.push(m), delta_ms) == run_intents(
            s1,
            intents.drop_first().push(m),
            delta_ms,
        ));
        assert(run_intents(s, intents, delta_ms) == run_intents(s1, intents.drop_first(), delta_ms));
    }
}

/// A movement intent whose sender has no live record is dropped outright: it
/// mutates no existing record and the table keeps its length and order.
pub proof fn lemma_stale_intent_dropped(
    s: Seq<RecordView>,
    client_id: u64,
    ev: MoveEvent,
    delta_ms: u32,
)
    requires
        forall|t: int| 0 <= t < s.len() ==> s[t].id != client_id,
    ensures
        apply_intent(s, client_id, ev, delta_ms) == s,
{
    assert(apply_intent(s, client_id, ev, delta_ms) =~= s);
}

/// The table after `n` ticks in each of which the same client repeats the
/// same intent once, every tick lasting `delta_ms` milliseconds.
pub open spec fn run_ticks(
    s: Seq<RecordView>,
    client_id: u64,
    ev: MoveEvent,
    delta_ms: u32,
    n: nat,
) -> Seq<RecordView>
    decreases n,
{
    if n == 0 {
        s
    } else {
        apply_intent(
            run_ticks(s, client_id, ev, delta_ms, (n - 1) as nat),
            client_id,
            ev,
            delta_ms,
        )
    }
}

/// Motion is frame-rate independent: a player who repeats the pure forward
/// intent over `n` ticks of fixed duration ends exactly `n * SPEED *
/// delta_ms` thousandths of a unit further along the forward axis, with the
/// other two axes, the name, the power level, every other record and the
/// table's shape untouched.
pub proof fn lemma_repeated_forward_motion(
    s: Seq<RecordView>,
    client_id: u64,
    delta_ms: u32,
    n: nat,
)
    ensures
        ({
            let fwd = MoveEvent { forward: 1, right: 0 };
            let s2 = run_ticks(s, client_id, fwd, delta_ms, n);
            &&& s2.len() == s.len()
            &&& forall|t: int|
                0 <= t < s.len() && s[t].id == client_id ==> s2[t] == (RecordView {
                    id: s[t].id,
                    character: CharacterView {
                        position: (
                            s[t].character.position.0,
                            s[t].character.position.1,
                            s[t].character.position.2 + n * ((SPEED as int) * (delta_ms as int)),
                        ),
                        name: s[t].character.name,
                        power_level: s[t].character.power_level,
                    },
                })
            &&& forall|t: int| 0 <= t < s.len() && s[t].id != client_id ==> s2[t] == s[t]
        }),
    decreases n,
{
    let fwd = MoveEvent { forward: 1, right: 0 };
    let k = (SPEED as int) * (delta_ms as int);
    if n == 0 {
        assert(forall|t: int|
            0 <= t < s.len() && s[t].id == client_id ==> s[t].character.position.2 + 0 * k == s[
                t
            ].character.position.2);
    } else {
        lemma_repeated_forward_motion(s, client_id, delta_ms, (n - 1) as nat);
        let s1 = run_ticks(s, client_id, fwd, delta_ms, (n - 1) as nat);
        let s2 = run_ticks(s, client_id, fwd, delta_ms, n);
        assert(s2 == apply_intent(s1, client_id, fwd, delta_ms));
        assert(((n - 1) as nat) * k + k == n * k) by (nonlinear_arith)
            requires
                n >= 1,
        ;
        assert forall|t: int| 0 <= t < s.len() && s[t].id == client_id implies s2[t]
            == (RecordView {
            id: s[t].id,
            character: CharacterView {
                position: (
                    s[t].character.position.0,
                    s[t].character.position.1,
                    s[t].character.position.2 + n * k,
                ),
                name: s[t].character.name,
                power_level: s[t].character.power_level,
            },
        }) by {
            assert(s2[t] == RecordView {
                id: s1[t].id,
                character: displaced(s1[t].character, fwd, delta_ms),
            });
        }
    }
}

/// The set of ids currently connected after a queue of lifecycle events:
/// those whose connect has not been followed by a disconnect.
pub open spec fn live_ids(events: Seq<ServerEvent>) -> Set<u64>
    decreases events.len(),
{
    if events.len() == 0 {
        Set::<u64>::empty()
    } else {
        match events.last() {
            ServerEvent::ClientConnected { client_id } => live_ids(events.drop_last()).insert(
                client_id,
            ),
            ServerEvent::ClientDisconnected { client_id } => live_ids(events.drop_last()).remove(
                client_id,
            ),
        }
    }
}

/// A queue of lifecycle events is orderly when no connect arrives for an id
/// that is already live: a reconnecting client is a brand-new identity, so
/// the transport never reuses a live id.
pub open spec fn orderly_events(events: Seq<ServerEvent>) -> bool {
    forall|k: int|
        0 <= k < events.len() ==> match #[trigger] events[k] {
            ServerEvent::ClientConnected { client_id } => !live_ids(events.take(k)).contains(
                client_id,
            ),
            ServerEvent::ClientDisconnected { client_id } => true,
        }
}

/// Disconnecting removes exactly the records of the departing id: the
/// remaining ids are the old ones less that id, still without duplicates.
proof fn lemma_disconnect_ids(s: Seq<RecordView>, client_id: u64)
    requires
        distinct_ids(s),
    ensures
        distinct_ids(disconnect(s, client_id)),
        ids(disconnect(s, client_id)).to_set() == ids(s).to_set().remove(client_id),
    decreases s.len(),
{
    broadcast use vstd::seq_lib::group_seq_properties;

    let pred = |r: RecordView| r.id != client_id;
    if s.len() == 0 {
        assert(s.filter(pred) =~= s) by {
            reveal(Seq::filter);
        }
        assert(ids(s) =~= Seq::<u64>::empty());
        assert(ids(s).to_set() =~= Set::<u64>::empty());
        assert(ids(s).to_set().remove(client_id) =~= Set::<u64>::empty());
    } else {
        let p = s.drop_last();
        let last = s.last();
        assert(distinct_ids(p));
        lemma_disconnect_ids(p, client_id);
        assert(s.filter(pred) == if pred(last) {
            p.filter(pred).push(last)
        } else {
            p.filter(pred)
        }) by {
            reveal(Seq::filter);
        }
        assert(s =~= p.push(last));
        assert(ids(s) =~= ids(p).push(last.id));
        Seq::<u64>::lemma_push_to_set_commute(ids(p), last.id);
        if pred(last) {
            let f = p.filter(pred);
            assert(ids(f.push(last)) =~= ids(f).push(last.id));
            Seq::<u64>::lemma_push_to_set_commute(ids(f), last.id);
            assert(!ids(p).to_set().contains(last.id)) by {
                if ids(p).to_set().contains(last.id) {
                    let w = choose|w: int| 0 <= w < ids(p).len() && ids(p)[w] == last.id;
                    assert(p[w].id == last.id);
                    assert(s[w].id == s[s.len() - 1].id);
                }
            }
            assert(distinct_ids(f.push(last))) by {
                assert forall|i: int, j: int|
                    0 <= i < j < f.push(last).len() implies f.push(last)[i].id != f.push(last)[
                    j
                ].id by {
                    if j == f.len() {
                        assert(ids(f)[i] == f[i].id);
                        assert(ids(f).to_set().contains(f[i].id));
                    }
                }
            }
            assert(ids(s.filter(pred)).to_set() =~= ids(s).to_set().remove(client_id));
        } else {
            assert(ids(s.filter(pred)).to_set() =~= ids(s).to_set().remove(client_id));
        }
    }
}

/// Exactly one live player record exists per currently connected client:
/// after any orderly queue of lifecycle events reaches a server that started
/// empty, the record ids are precisely the currently connected ids, no id
/// occurs twice, and the record count equals the number of connected
/// clients.
pub proof fn lemma_connection_lifecycle(events: Seq<ServerEvent>)
    requires
        orderly_events(events),
    ensures
        ({
            let s = run_events(Seq::<RecordView>::empty(), events);
            &&& distinct_ids(s)
            &&& ids(s).to_set() == live_ids(events)
            &&& s.len() == live_ids(events).len()
        }),
    decreases events.len(),
{
    broadcast use vstd::seq_lib::seq_to_set_is_finite;
    broadcast use vstd::set::group_set_axioms;

    if events.len() == 0 {
        let s = run_events(Seq::<RecordView>::empty(), events);
        assert(s == Seq::<RecordView>::empty());
        assert(ids(s) =~= Seq::<u64>::empty());
        assert(ids(s).to_set() =~= Set::<u64>::empty());
        assert(Set::<u64>::empty().len() == 0) by {
            broadcast use vstd::set::axiom_set_empty_len;

        }
    } else {
        let p = events.drop_last();
        let e = events.last();
        assert(orderly_events(p)) by {
            assert forall|k: int| 0 <= k < p.len() implies match #[trigger] p[k] {
                ServerEvent::ClientConnected { client_id } => !live_ids(p.take(k)).contains(
                    client_id,
                ),
                ServerEvent::ClientDisconnected { client_id } => true,
            } by {
                assert(p[k] == events[k]);
                assert(p.take(k) =~= events.take(k));
            }
        }
        lemma_connection_lifecycle(p);
        let s0 = run_events(Seq::<RecordView>::empty(), p);
        assert(events =~= p.push(e));
        lemma_run_events_snoc(Seq::<RecordView>::empty(), p, e);
        let s = run_events(Seq::<RecordView>::empty(), events);
        assert(s == step_event(s0, e));
        match e {
            ServerEvent::ClientConnected { client_id } => {
                assert(events[events.len() - 1] == e);
                assert(events.take(events.len() - 1) =~= p);
                assert(!live_ids(p).contains(client_id));
                assert(s == s0.push(default_record(client_id)));
                assert(ids(s) =~= ids(s0).push(client_id));
                Seq::<u64>::lemma_push_to_set_commute(ids(s0), client_id);
                assert(distinct_ids(s)) by {
                    assert forall|i: int, j: int| 0 <= i < j < s.len() implies s[i].id != s[
                    j
                    ].id by {
                        if j == s.len() - 1 {
                            assert(ids(s0)[i] == s0[i].id);
                            assert(ids(s0).to_set().contains(s0[i].id));
                        }
                    }
                }
                assert(live_ids(events) == live_ids(p).insert(client_id));
                assert(ids(s).to_set() == live_ids(events));
                assert(s.len() == live_ids(events).len());
            },
            ServerEvent::ClientDisconnected { client_id } => {
                lemma_disconnect_ids(s0, client_id);
                assert(live_ids(events) == live_ids(p).remove(client_id));
                assert(ids(s).to_set() == live_ids(events));
                assert(ids(s).no_duplicates()) by {
                    assert forall|i: int, j: int|
                        0 <= i < ids(s).len() && 0 <= j < ids(s).len() && i != j implies ids(s)[i]
                        != ids(s)[j] by {
                        assert(ids(s)[i] == s[i].id);
                        assert(ids(s)[j] == s[j].id);
                    }
                }
                ids(s).unique_seq_to_set();
                assert(s.len() == live_ids(events).len());
            },
        }
    }
}

/// Filtering one more record either keeps it (when its id differs) or drops
/// it: the step a table scan takes.
proof fn lemma_disconnect_take_step(s: Seq<RecordView>, client_id: u64, j: int)
    requires
        0 <= j < s.len(),
    ensures
        disconnect(s.take(j + 1), client_id) == if s[j].id != client_id {
            disconnect(s.take(j), client_id).push(s[j])
        } else {
            disconnect(s.take(j), client_id)
        },
{
    let pred = |r: RecordView| r.id != client_id;
    let single = seq![s[j]];
    assert(s.take(j + 1) =~= s.take(j) + single);
    Seq::<RecordView>::filter_distributes_over_add(s.take(j), single, pred);
    assert(single.filter(pred) == if pred(s[j]) { single } else { Seq::<RecordView>::empty() })
        by {
        reveal_with_fuel(Seq::filter, 2);
        assert(single.drop_last() =~= Seq::<RecordView>::empty());
        assert(single.last() == s[j]);
        assert(Seq::<RecordView>::empty().push(s[j]) =~= single);
    }
    if pred(s[j]) {
        assert(s.take(j).filter(pred) + single =~= s.take(j).filter(pred).push(s[j]));
    } else {
        assert(s.take(j).filter(pred) + Seq::<RecordView>::empty() =~= s.take(j).filter(pred));
    }
}

/// Appending one event to a queue runs the queue first and that event last.
proof fn lemma_run_events_snoc(s: Seq<RecordView>, events: Seq<ServerEvent>, e: ServerEvent)
    ensures
        run_events(s, events.push(e)) == step_event(run_events(s, events), e),
    decreases events.len(),
{
    if events.len() == 0 {
        assert(events.push(e)[0] == e);
        assert(events.push(e).drop_first() =~= Seq::<ServerEvent>::empty());
        assert(run_events(step_event(s, e), Seq::<ServerEvent>::empty()) == step_event(s, e));
        assert(run_events(s, events) == s);
    } else {
        assert(events.push(e)[0] == events[0]);
        assert(events.push(e).drop_first() =~= events.drop_first().push(e));
        lemma_run_events_snoc(step_event(s, events[0]), events.drop_first(), e);
        assert(run_events(s, events.push(e)) == run_events(
            step_event(s, events[0]),
            events.drop_first().push(e),
        ));
        assert(run_events(s, events) == run_events(step_event(s, events[0]), events.drop_first()));
    }
}

} // verus!
