use vstd::prelude::*;
use crate::row::recent;
use crate::table::{appended, Table, TableView};

verus! {

/// What a `Connection` holds.
pub struct ConnectionView {
    pub active: bool,
    pub data: TableView,
}

/// One device's session: whether a connection of it is live, and its
/// buffer of recent readings.
pub struct Connection {
    pub active: bool,
    recent_data: Table,
}

impl View for Connection {
    type V = ConnectionView;

    closed spec fn view(&self) -> ConnectionView {
        ConnectionView { active: self.active, data: self.recent_data@ }
    }
}

impl Connection {
    /// The buffer's shape holds.
    pub closed spec fn wf(&self) -> bool {
        self.recent_data.wf()
    }

    /// An inactive session with an empty buffer.
    pub fn new() -> (c: Connection)
        ensures
            c.wf(),
            !c@.active,
            c@.data == (TableView { columns: Set::<int>::empty(), rows: Seq::empty() }),
    {
        Connection { active: false, recent_data: Table::new() }
    }

    /// Whether a connection of the device is live.
    pub fn is_active(&self) -> (r: bool)
        ensures
            r == self@.active,
    {
        self.active
    }

    /// Marks the session live or quiet; the buffer stays.
    pub fn set_active(&mut self, active: bool)
        requires
            old(self).wf(),
        ensures
            final(self).wf(),
            final(self)@ == (ConnectionView { active, data: old(self)@.data }),
    {
        self.active = active;
    }

    /// The buffer.
    pub fn recent_data(&self) -> (r: &Table)
        requires
            self.wf(),
        ensures
            r.wf(),
            r@ == self@.data,
    {
        &self.recent_data
    }

    /// Empties the buffer; the session stays as active as it was.
    pub fn reset_recent_data(&mut self)
        requires
            old(self).wf(),
        ensures
            final(self).wf(),
            final(self)@.active == old(self)@.active,
            final(self)@.data == (TableView { columns: Set::<int>::empty(), rows: Seq::empty() }),
    {
        self.recent_data.clear();
    }

    /// Appends a batch to the buffer (see `Table::append`).
    pub fn append_data(&mut self, new_data: Table)
        requires
            old(self).wf(),
            new_data.wf(),
        ensures
            final(self).wf(),
            final(self)@.active == old(self)@.active,
            final(self)@.data == appended(old(self)@.data, new_data@),
    {
        self.recent_data.append(new_data);
    }

    /// Drops the readings older than the latest minus `retention`
    /// nanoseconds (see `Table::trim_older_than`).
    pub fn discard_older_than(&mut self, retention: i64)
        requires
            old(self).wf(),
        ensures
            final(self).wf(),
            final(self)@.active == old(self)@.active,
            final(self)@.data.columns == old(self)@.data.columns,
            final(self)@.data.rows == recent(old(self)@.data.rows, retention as int),
    {
        self.recent_data.trim_older_than(retention);
    }
}

} // verus!
