use vstd::prelude::*;
use crate::aggregate::{aggregate, aggregate_outcome, table_result, AggregateError};
use crate::connection::{Connection, ConnectionView};
use crate::duration::{parse_duration, parsed_duration, DurationError};
use crate::row::recent;
use crate::table::{Table, TableView};

verus! {

/// Lookback of a query that names none: one minute, in nanoseconds.
pub const DEFAULT_LOOKBACK_NS: i64 = 60_000_000_000;

/// How long a device's readings are kept after its latest one: five
/// minutes, in nanoseconds.
pub const RETENTION_NS: i64 = 300_000_000_000;

/// What the registry holds: the known device ids in order of first contact,
/// and each one's session.
pub struct RegistryView {
    pub ids: Seq<Seq<char>>,
    pub sessions: Map<Seq<char>, ConnectionView>,
}

/// Something done to one device's session.
pub enum SessionAction {
    /// A connection introduced itself with the device id.
    Connect,
    /// The session became live or went quiet.
    SetActive(bool),
    /// A batch arrived and was kept, then the buffer was trimmed to the
    /// retention (nanoseconds).
    Append(TableView, i64),
    /// The buffer was emptied on request.
    Reset,
}

/// The contents of an empty table.
pub open spec fn empty_table() -> TableView {
    TableView { columns: Set::empty(), rows: Seq::empty() }
}

/// A session after an action.
pub open spec fn session_after(s: ConnectionView, a: SessionAction) -> ConnectionView {
    match a {
        SessionAction::Connect => ConnectionView { active: true, data: s.data },
        SessionAction::SetActive(b) => ConnectionView { active: b, data: s.data },
        SessionAction::Append(batch, retention) => ConnectionView {
            active: s.active,
            data: TableView {
                columns: s.data.columns.union(batch.columns),
                rows: recent(s.data.rows + batch.rows, retention as int),
            },
        },
        SessionAction::Reset => ConnectionView { active: s.active, data: empty_table() },
    }
}

/// The registry after an action on device `id`. Connecting creates the
/// session of an unknown id (inactive, empty) before it acts; the other
/// actions leave the registry as it is when `id` is unknown.
pub open spec fn apply_action(v: RegistryView, id: Seq<char>, a: SessionAction) -> RegistryView {
    if v.sessions.contains_key(id) {
        RegistryView { ids: v.ids, sessions: v.sessions.insert(id, session_after(v.sessions[id], a)) }
    } else if a is Connect {
        RegistryView {
            ids: v.ids.push(id),
            sessions: v.sessions.insert(
                id,
                session_after(ConnectionView { active: false, data: empty_table() }, a),
            ),
        }
    } else {
        v
    }
}

/// The registry after a series of actions on device `id`.
pub open spec fn apply_actions(v: RegistryView, id: Seq<char>, actions: Seq<SessionAction>) -> RegistryView
    decreases actions.len(),
{
    if actions.len() == 0 {
        v
    } else {
        apply_action(apply_actions(v, id, actions.drop_last()), id, actions.last())
    }
}

/// Any number of actions on one device leave every other device's session
/// as it was: present with the same activity and buffer, or absent.
pub proof fn lemma_sessions_isolated(
    v: RegistryView,
    id: Seq<char>,
    actions: Seq<SessionAction>,
    other: Seq<char>,
)
    requires
        other != id,
    ensures
        apply_actions(v, id, actions).sessions.contains_key(other) == v.sessions.contains_key(
            other,
        ),
        v.sessions.contains_key(other) ==> apply_actions(v, id, actions).sessions[other]
            == v.sessions[other],
    decreases actions.len(),
{
    if actions.len() > 0 {
        lemma_sessions_isolated(v, id, actions.drop_last(), other);
    }
}

/// The text of an optional query parameter.
pub open spec fn param_text(p: Option<&str>) -> Option<Seq<char>> {
    match p {
        Some(t) => Some(t@),
        None => None,
    }
}

/// What a data query for device `id` gives: `NotFound` for an unknown id;
/// otherwise the lookback (`duration`, one minute by default) and then the
/// bucket width (`interval`, none by default) are read, the first refusal
/// is the error, and the session's buffer is aggregated with them.
pub open spec fn query_outcome(
    v: RegistryView,
    id: Seq<char>,
    interval: Option<Seq<char>>,
    duration: Option<Seq<char>>,
    r: Result<TableView, QueryError>,
) -> bool {
    if !v.sessions.contains_key(id) {
        r == Err::<TableView, QueryError>(QueryError::NotFound)
    } else {
        let lookback = match duration {
            None => Ok(DEFAULT_LOOKBACK_NS),
            Some(t) => parsed_duration(t),
        };
        let width = match interval {
            None => Ok(None),
            Some(t) => match parsed_duration(t) {
                Ok(n) => Ok(Some(n)),
                Err(e) => Err(e),
            },
        };
        match lookback {
            Err(e) => r == Err::<TableView, QueryError>(QueryError::Duration(e)),
            Ok(l) => match width {
                Err(e) => r == Err::<TableView, QueryError>(QueryError::Interval(e)),
                Ok(w) => match r {
                    Ok(t) => aggregate_outcome(v.sessions[id].data, w, l, Ok(t)),
                    Err(QueryError::Aggregate(e)) => aggregate_outcome(
                        v.sessions[id].data,
                        w,
                        l,
                        Err(e),
                    ),
                    Err(_) => false,
                },
            },
        }
    }
}

/// The registry after a series of actions, each on its own device.
pub open spec fn apply_all(v: RegistryView, ops: Seq<(Seq<char>, SessionAction)>) -> RegistryView
    decreases ops.len(),
{
    if ops.len() == 0 {
        v
    } else {
        apply_action(apply_all(v, ops.drop_last()), ops.last().0, ops.last().1)
    }
}

/// The actions of a series that are on device `id`, in order.
pub open spec fn actions_on(ops: Seq<(Seq<char>, SessionAction)>, id: Seq<char>) -> Seq<
    SessionAction,
>
    decreases ops.len(),
{
    if ops.len() == 0 {
        Seq::empty()
    } else if ops.last().0 == id {
        actions_on(ops.drop_last(), id).push(ops.last().1)
    } else {
        actions_on(ops.drop_last(), id)
    }
}

/// However actions on several devices interleave, a device's session ends
/// as its own actions alone would leave it: no device sees another's data.
pub proof fn lemma_interleaving_invisible(
    v: RegistryView,
    ops: Seq<(Seq<char>, SessionAction)>,
    id: Seq<char>,
)
    ensures
        apply_all(v, ops).sessions.contains_key(id) == apply_actions(
            v,
            id,
            actions_on(ops, id),
        ).sessions.contains_key(id),
        apply_all(v, ops).sessions.contains_key(id) ==> apply_all(v, ops).sessions[id]
            == apply_actions(v, id, actions_on(ops, id)).sessions[id],
    decreases ops.len(),
{
    if ops.len() > 0 {
        let init = ops.drop_last();
        lemma_interleaving_invisible(v, init, id);
        if ops.last().0 == id {
            assert(actions_on(ops, id).drop_last() == actions_on(init, id));
        }
    }
}

/// Why a data query gave no table.
#[derive(PartialEq, Eq, Structural, Clone, Copy, Debug)]
pub enum QueryError {
    /// No session has that device id.
    NotFound,
    /// The lookback text was refused.
    Duration(DurationError),
    /// The bucket width text was refused.
    Interval(DurationError),
    /// The aggregation was refused.
    Aggregate(AggregateError),
}

/// The session registry: each device id known so far, with its session.
/// Sessions stay after their connection ends, so a device that reconnects
/// finds its data.
pub struct Connections {
    ids: Vec<String>,
    connections: Vec<Connection>,
}

/// Position of `k` among `ids`.
spec fn index_of(ids: Seq<String>, k: Seq<char>) -> int {
    choose|i: int| 0 <= i < ids.len() && ids[i]@ == k
}

/// The registry contents that parallel id and session lists stand for.
spec fn view_of(ids: Seq<String>, connections: Seq<Connection>) -> RegistryView {
    RegistryView {
        ids: ids.map_values(|s: String| s@),
        sessions: Map::new(
            |k: Seq<char>| exists|i: int| 0 <= i < ids.len() && ids[i]@ == k,
            |k: Seq<char>| connections[index_of(ids, k)]@,
        ),
    }
}

/// Whether no id occurs twice.
spec fn distinct(ids: Seq<String>) -> bool {
    forall|i: int, j: int| 0 <= i < ids.len() && 0 <= j < ids.len() && i != j ==> ids[i]@ != ids[j]@
}

proof fn lemma_index_of(ids: Seq<String>, i: int)
    requires
        distinct(ids),
        0 <= i < ids.len(),
    ensures
        index_of(ids, ids[i]@) == i,
{
    let j = index_of(ids, ids[i]@);
    assert(0 <= j < ids.len() && ids[j]@ == ids[i]@);
}

proof fn lemma_view_update(ids: Seq<String>, connections: Seq<Connection>, i: int, c: Connection)
    requires
        distinct(ids),
        ids.len() == connections.len(),
        0 <= i < ids.len(),
    ensures
        view_of(ids, connections.update(i, c)).sessions == view_of(
            ids,
            connections,
        ).sessions.insert(ids[i]@, c@),
        view_of(ids, connections.update(i, c)).ids == view_of(ids, connections).ids,
{
    let before = view_of(ids, connections);
    let after = view_of(ids, connections.update(i, c));
    lemma_index_of(ids, i);
    assert forall|k: Seq<char>| after.sessions.contains_key(k) implies after.sessions[k]
        == before.sessions.insert(ids[i]@, c@)[k] by {
        let j = index_of(ids, k);
        assert(0 <= j < ids.len() && ids[j]@ == k);
        if k != ids[i]@ {
            assert(j != i);
        }
    }
    assert(after.sessions.dom() =~= before.sessions.insert(ids[i]@, c@).dom()) by {
        assert(before.sessions.contains_key(ids[i]@));
    }
    assert(after.sessions =~= before.sessions.insert(ids[i]@, c@));
}

proof fn lemma_view_push(ids: Seq<String>, connections: Seq<Connection>, s: String, c: Connection)
    requires
        distinct(ids),
        ids.len() == connections.len(),
        forall|i: int| 0 <= i < ids.len() ==> ids[i]@ != s@,
    ensures
        distinct(ids.push(s)),
        view_of(ids.push(s), connections.push(c)).sessions == view_of(
            ids,
            connections,
        ).sessions.insert(s@, c@),
        view_of(ids.push(s), connections.push(c)).ids == view_of(ids, connections).ids.push(s@),
{
    let ids2 = ids.push(s);
    let before = view_of(ids, connections);
    let after = view_of(ids2, connections.push(c));
    assert(distinct(ids2)) by {
        assert forall|i: int, j: int|
            0 <= i < ids2.len() && 0 <= j < ids2.len() && i != j implies ids2[i]@ != ids2[j]@ by {
            if i < ids.len() && j < ids.len() {
                assert(ids2[i] == ids[i] && ids2[j] == ids[j]);
            } else if i < ids.len() {
                assert(ids2[i] == ids[i]);
            } else if j < ids.len() {
                assert(ids2[j] == ids[j]);
            }
        }
    }
    assert forall|k: Seq<char>| after.sessions.contains_key(k) implies after.sessions[k]
        == before.sessions.insert(s@, c@)[k] by {
        let j = index_of(ids2, k);
        assert(0 <= j < ids2.len() && ids2[j]@ == k);
        if k == s@ {
            lemma_index_of(ids2, ids.len() as int);
        } else {
            assert(j < ids.len());
            assert(ids2[j] == ids[j]);
            lemma_index_of(ids, j);
            lemma_index_of(ids2, j);
        }
    }
    assert forall|k: Seq<char>| after.sessions.contains_key(k) <==> before.sessions.insert(
        s@,
        c@,
    ).contains_key(k) by {
        if after.sessions.contains_key(k) && k != s@ {
            let j = choose|j: int| 0 <= j < ids2.len() && ids2[j]@ == k;
            assert(j < ids.len());
            assert(ids[j]@ == k);
        }
        if before.sessions.contains_key(k) {
            let j = choose|j: int| 0 <= j < ids.len() && ids[j]@ == k;
            assert(ids2[j]@ == k);
        }
        if k == s@ {
            assert(ids2[ids.len() as int]@ == k);
        }
    }
    assert(after.sessions =~= before.sessions.insert(s@, c@));
    assert(after.ids =~= before.ids.push(s@));
}

impl View for Connections {
    type V = RegistryView;

    closed spec fn view(&self) -> RegistryView {
        view_of(self.ids@, self.connections@)
    }
}

impl Connections {
    /// Ids and sessions line up, no id occurs twice, every buffer keeps its
    /// shape.
    pub closed spec fn wf(&self) -> bool {
        &&& self.ids.len() == self.connections.len()
        &&& distinct(self.ids@)
        &&& forall|i: int| 0 <= i < self.connections.len() ==> (#[trigger] self.connections@[i]).wf()
    }

    /// The empty registry.
    pub fn new() -> (r: Connections)
        ensures
            r.wf(),
            r@.ids == Seq::<Seq<char>>::empty(),
            r@.sessions == Map::<Seq<char>, ConnectionView>::empty(),
    {
        let r = Connections { ids: Vec::new(), connections: Vec::new() };
        assert(r@.ids =~= Seq::<Seq<char>>::empty());
        assert(r@.sessions =~= Map::<Seq<char>, ConnectionView>::empty());
        r
    }

    /// Position of the session of `id`, if there is one.
    fn find(&self, id: &String) -> (r: Option<usize>)
        requires
            self.wf(),
        ensures
            r matches Some(i) ==> i < self.ids.len() && self.ids@[i as int]@ == id@
                && self@.sessions.contains_key(id@) && self@.sessions[id@]
                == self.connections@[i as int]@,
            r is None ==> !self@.sessions.contains_key(id@) && forall|i: int|
                0 <= i < self.ids.len() ==> self.ids@[i]@ != id@,
    {
        let mut i: usize = 0;
        while i < self.ids.len()
            invariant
                i <= self.ids.len(),
                self.wf(),
                forall|j: int| 0 <= j < i ==> self.ids@[j]@ != id@,
            decreases self.ids.len() - i,
        {
            if self.ids[i] == *id {
                proof {
                    lemma_index_of(self.ids@, i as int);
                }
                return Some(i);
            }
            i += 1;
        }
        None
    }

    /// The session of `id`; `None` for an unknown id (nothing is created).
    pub fn get(&self, id: &str) -> (r: Option<&Connection>)
        requires
            self.wf(),
        ensures
            r is Some <==> self@.sessions.contains_key(id@),
            r matches Some(c) ==> c.wf() && c@ == self@.sessions[id@],
    {
        let key = id.to_owned();
        match self.find(&key) {
            Some(i) => Some(&self.connections[i]),
            None => None,
        }
    }

    /// Whether the session of `id` is live; `None` for an unknown id.
    pub fn is_active(&self, id: &str) -> (r: Option<bool>)
        requires
            self.wf(),
        ensures
            r is Some <==> self@.sessions.contains_key(id@),
            r matches Some(b) ==> b == self@.sessions[id@].active,
    {
        match self.get(id) {
            Some(c) => Some(c.is_active()),
            None => None,
        }
    }

    /// The known device ids, in order of first contact.
    pub fn ids(&self) -> (r: Vec<String>)
        requires
            self.wf(),
        ensures
            r@.map_values(|s: String| s@) == self@.ids,
            self@.ids.no_duplicates(),
            forall|k: Seq<char>| self@.ids.contains(k) <==> self@.sessions.contains_key(k),
    {
        proof {
            let v = self@;
            assert forall|i: int, j: int|
                0 <= i < v.ids.len() && 0 <= j < v.ids.len() && i != j implies v.ids[i]
                != v.ids[j] by {
                assert(v.ids[i] == self.ids@[i]@);
                assert(v.ids[j] == self.ids@[j]@);
            }
            assert forall|k: Seq<char>| v.ids.contains(k) <==> v.sessions.contains_key(k) by {
                if v.ids.contains(k) {
                    let i = choose|i: int| 0 <= i < v.ids.len() && v.ids[i] == k;
                    assert(self.ids@[i]@ == k);
                }
                if v.sessions.contains_key(k) {
                    let i = choose|i: int| 0 <= i < self.ids.len() && self.ids@[i]@ == k;
                    assert(v.ids[i] == k);
                }
            }
        }
        let mut out: Vec<String> = Vec::new();
        let mut i: usize = 0;
        while i < self.ids.len()
            invariant
                i <= self.ids.len(),
                out@.map_values(|s: String| s@) == self.ids@.take(i as int).map_values(
                    |s: String| s@,
                ),
            decreases self.ids.len() - i,
        {
            let ghost before = out@;
            out.push(self.ids[i].clone());
            proof {
                assert(self.ids@.take(i + 1) == self.ids@.take(i as int).push(self.ids@[i as int]));
                assert(out@ == before.push(self.ids@[i as int]));
                assert(out@.map_values(|s: String| s@) =~= before.map_values(|s: String| s@).push(
                    self.ids@[i as int]@,
                ));
                assert(self.ids@.take(i + 1).map_values(|s: String| s@) =~= self.ids@.take(
                    i as int,
                ).map_values(|s: String| s@).push(self.ids@[i as int]@));
            }
            i += 1;
        }
        assert(self.ids@.take(self.ids.len() as int) == self.ids@);
        out
    }

    /// A connection introduced itself as `id`: its session is created if
    /// there was none, and marked live.
    pub fn connect(&mut self, id: &str)
        requires
            old(self).wf(),
        ensures
            final(self).wf(),
            final(self)@ == apply_action(old(self)@, id@, SessionAction::Connect),
    {
        let key = id.to_owned();
        match self.find(&key) {
            Some(i) => {
                let ghost ids = self.ids@;
                let ghost before = self.connections@;
                self.connections[i].set_active(true);
                proof {
                    lemma_view_update(ids, before, i as int, self.connections@[i as int]);
                    assert(self.connections@ == before.update(i as int, self.connections@[i as int]));
                    assert(self@.sessions =~= old(self)@.sessions.insert(
                        id@,
                        session_after(old(self)@.sessions[id@], SessionAction::Connect),
                    ));
                }
            },
            None => {
                let mut c = Connection::new();
                c.set_active(true);
                let ghost ids = self.ids@;
                let ghost before = self.connections@;
                proof {
                    lemma_view_push(ids, before, key, c);
                }
                self.ids.push(key);
                self.connections.push(c);
                proof {
                    assert(self@.sessions =~= old(self)@.sessions.insert(
                        id@,
                        session_after(
                            ConnectionView { active: false, data: empty_table() },
                            SessionAction::Connect,
                        ),
                    ));
                }
            },
        }
    }

    /// Marks the session of `id` live or quiet, keeping its buffer. Returns
    /// whether `id` is known; an unknown id changes nothing.
    pub fn set_active(&mut self, id: &str, active: bool) -> (found: bool)
        requires
            old(self).wf(),
        ensures
            final(self).wf(),
            found == old(self)@.sessions.contains_key(id@),
            final(self)@ == apply_action(old(self)@, id@, SessionAction::SetActive(active)),
    {
        let key = id.to_owned();
        match self.find(&key) {
            Some(i) => {
                let ghost ids = self.ids@;
                let ghost before = self.connections@;
                self.connections[i].set_active(active);
                proof {
                    lemma_view_update(ids, before, i as int, self.connections@[i as int]);
                    assert(self.connections@ == before.update(i as int, self.connections@[i as int]));
                    assert(self@.sessions =~= old(self)@.sessions.insert(
                        id@,
                        session_after(old(self)@.sessions[id@], SessionAction::SetActive(active)),
                    ));
                }
                true
            },
            None => false,
        }
    }

    /// Appends a batch to the buffer of `id`, then trims the buffer to
    /// `retention` nanoseconds. Returns whether `id` is known; an unknown id
    /// changes nothing.
    pub fn append_batch(&mut self, id: &str, batch: Table, retention: i64) -> (found: bool)
        requires
            old(self).wf(),
            batch.wf(),
        ensures
            final(self).wf(),
            found == old(self)@.sessions.contains_key(id@),
            final(self)@ == apply_action(
                old(self)@,
                id@,
                SessionAction::Append(batch@, retention),
            ),
    {
        let ghost batch_view = batch@;
        let key = id.to_owned();
        match self.find(&key) {
            Some(i) => {
                let ghost ids = self.ids@;
                let ghost before = self.connections@;
                self.connections[i].append_data(batch);
                self.connections[i].discard_older_than(retention);
                proof {
                    lemma_view_update(ids, before, i as int, self.connections@[i as int]);
                    assert(self.connections@ == before.update(i as int, self.connections@[i as int]));
                    assert(self@.sessions =~= old(self)@.sessions.insert(
                        id@,
                        session_after(
                            old(self)@.sessions[id@],
                            SessionAction::Append(batch_view, retention),
                        ),
                    ));
                }
                true
            },
            None => false,
        }
    }

    /// Empties the buffer of `id`; the id stays listed and its activity
    /// stays as it was. Returns whether `id` is known; an unknown id changes
    /// nothing.
    pub fn reset(&mut self, id: &str) -> (found: bool)
        requires
            old(self).wf(),
        ensures
            final(self).wf(),
            found == old(self)@.sessions.contains_key(id@),
            final(self)@ == apply_action(old(self)@, id@, SessionAction::Reset),
    {
        let key = id.to_owned();
        match self.find(&key) {
            Some(i) => {
                let ghost ids = self.ids@;
                let ghost before = self.connections@;
                self.connections[i].reset_recent_data();
                proof {
                    lemma_view_update(ids, before, i as int, self.connections@[i as int]);
                    assert(self.connections@ == before.update(i as int, self.connections@[i as int]));
                    assert(self@.sessions =~= old(self)@.sessions.insert(
                        id@,
                        session_after(old(self)@.sessions[id@], SessionAction::Reset),
                    ));
                }
                true
            },
            None => false,
        }
    }

    /// The data of device `id`, as `aggregate` gives it: bucketed by the
    /// width that `interval` names (raw rows without one), within the
    /// lookback that `duration` names (one minute without one). A width of
    /// zero or less is refused on a non-empty buffer. Reads only: an unknown
    /// id is `NotFound` and creates nothing.
    pub fn sensor_data(&self, id: &str, interval: Option<&str>, duration: Option<&str>) -> (r:
        Result<Table, QueryError>)
        requires
            self.wf(),
        ensures
            r matches Ok(t) ==> t.wf(),
            query_outcome(self@, id@, param_text(interval), param_text(duration), table_result(r)),
    {
        let c = match self.get(id) {
            Some(c) => c,
            None => return Err(QueryError::NotFound),
        };
        let lookback = match duration {
            None => DEFAULT_LOOKBACK_NS,
            Some(text) => match parse_duration(text) {
                Ok(n) => n,
                Err(e) => return Err(QueryError::Duration(e)),
            },
        };
        let width = match interval {
            None => None,
            Some(text) => match parse_duration(text) {
                Ok(n) => Some(n),
                Err(e) => return Err(QueryError::Interval(e)),
            },
        };
        match aggregate(c.recent_data(), width, lookback) {
            Ok(t) => Ok(t),
            Err(e) => Err(QueryError::Aggregate(e)),
        }
    }
}

} // verus!
