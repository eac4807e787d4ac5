//! Log messages on their way into the event stream.

use crate::events::{LogLevel, RunEvent};
use crate::text::same_text;
use vstd::prelude::*;

verus! {

/// What a log message says: the message itself and its other fields, each name
/// once.
#[derive(Debug)]
pub struct LogRecord {
    pub message: String,
    pub fields: Vec<(String, String)>,
}

/// The fields by name.
pub open spec fn field_map(fields: Seq<(String, String)>) -> Map<Seq<char>, Seq<char>>
    decreases fields.len(),
{
    if fields.len() == 0 {
        Map::empty()
    } else {
        field_map(fields.drop_last()).insert(fields.last().0@, fields.last().1@)
    }
}

/// Whether no name occurs twice.
pub open spec fn distinct(fields: Seq<(String, String)>) -> bool {
    forall|i: int, j: int|
        0 <= i < j < fields.len() ==> (#[trigger] fields[i]).0@ != (#[trigger] fields[j]).0@
}

/// A new value for a name that is there takes the place of the old one.
proof fn lemma_replace(fields: Seq<(String, String)>, i: int, name: String, value: String)
    requires
        distinct(fields),
        0 <= i < fields.len(),
        fields[i].0@ == name@,
    ensures
        field_map(fields.update(i, (name, value))) =~= field_map(fields).insert(name@, value@),
        distinct(fields.update(i, (name, value))),
    decreases fields.len(),
{
    let updated = fields.update(i, (name, value));
    let rest = fields.drop_last();
    if i == fields.len() - 1 {
        assert(updated.drop_last() =~= rest);
    } else {
        assert(updated.drop_last() =~= rest.update(i, (name, value)));
        lemma_replace(rest, i, name, value);
        assert(fields[i].0@ != fields[fields.len() - 1].0@);
    }
}

impl LogRecord {
    /// A record that says nothing yet.
    pub fn new() -> (record: Self)
        ensures
            record.message@ == Seq::<char>::empty(),
            record.fields@.len() == 0,
            distinct(record.fields@),
    {
        LogRecord { message: String::new(), fields: Vec::new() }
    }

    /// Take in a field. The one named `message` is the message; any other takes
    /// the place of an earlier one of its name.
    pub fn record(&mut self, name: String, value: String)
        requires
            distinct(old(self).fields@),
        ensures
            distinct(final(self).fields@),
            name@ == "message"@ ==> final(self).message == value && final(self).fields@ == old(
                self,
            ).fields@,
            name@ != "message"@ ==> final(self).message == old(self).message && field_map(
                final(self).fields@,
            ) == field_map(old(self).fields@).insert(name@, value@),
    {
        if same_text(&name, "message") {
            self.message = value;
            return;
        }
        let mut i: usize = 0;
        while i < self.fields.len() && !same_text(&self.fields[i].0, &name)
            invariant
                i <= self.fields@.len(),
                self.fields@ == old(self).fields@,
                self.message == old(self).message,
                forall|k: int| 0 <= k < i ==> (#[trigger] self.fields@[k]).0@ != name@,
            decreases self.fields@.len() - i,
        {
            i = i + 1;
        }
        let ghost before = self.fields@;
        if i < self.fields.len() {
            proof {
                lemma_replace(before, i as int, name, value);
            }
            self.fields.set(i, (name, value));
        } else {
            self.fields.push((name, value));
            assert(self.fields@.drop_last() =~= before);
        }
    }

    /// The event that announces the message.
    pub fn into_event(self, level: LogLevel, target: String) -> (event: RunEvent)
        ensures
            event == (RunEvent::Log {
                level,
                target,
                message: self.message,
                fields: self.fields,
            }),
    {
        RunEvent::Log { level, target, message: self.message, fields: self.fields }
    }
}

/// The fields by name are the fields: each stands under its name with its value, and no
/// other name is there.
pub proof fn law_fields_stand_under_their_names(fields: Seq<(String, String)>)
    requires
        distinct(fields),
    ensures
        forall|i: int|
            0 <= i < fields.len() ==> field_map(fields).contains_key((#[trigger] fields[i]).0@)
                && field_map(fields)[fields[i].0@] == fields[i].1@,
        forall|name: Seq<char>| #[trigger]
            field_map(fields).contains_key(name) ==> exists|i: int|
                0 <= i < fields.len() && (#[trigger] fields[i]).0@ == name,
    decreases fields.len(),
{
    if fields.len() > 0 {
        let rest = fields.drop_last();
        assert(distinct(rest)) by {
            assert forall|i: int, j: int| 0 <= i < j < rest.len() implies (#[trigger] rest[i]).0@
                != (#[trigger] rest[j]).0@ by {
                assert(fields[i].0@ != fields[j].0@);
            }
        }
        law_fields_stand_under_their_names(rest);
        assert forall|i: int| 0 <= i < fields.len() implies field_map(fields).contains_key(
            (#[trigger] fields[i]).0@,
        ) && field_map(fields)[fields[i].0@] == fields[i].1@ by {
            if i < rest.len() {
                assert(rest[i] == fields[i]);
                assert(fields[i].0@ != fields[fields.len() - 1].0@);
            }
        }
        assert forall|name: Seq<char>| #[trigger] field_map(fields).contains_key(
            name,
        ) implies exists|i: int| 0 <= i < fields.len() && (#[trigger] fields[i]).0@ == name by {
            if name == fields.last().0@ {
                assert(fields[fields.len() - 1].0@ == name);
            } else {
                assert(field_map(rest).contains_key(name));
                let i = choose|i: int| 0 <= i < rest.len() && (#[trigger] rest[i]).0@ == name;
                assert(fields[i].0@ == name);
            }
        }
    }
}

} // verus!
