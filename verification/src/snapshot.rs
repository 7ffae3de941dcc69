//! What the store holds at one moment: sources, their topics, and the fields of
//! these.

use crate::text::same_text;
use vstd::prelude::*;

verus! {

#[derive(Clone, Copy, Debug, PartialEq, Eq, PartialOrd, Ord, Hash, Structural)]
pub struct SourceId(pub u32);

#[derive(Clone, Copy, Debug, PartialEq, Eq, PartialOrd, Ord, Hash, Structural)]
pub struct TopicId(pub u32);

#[derive(Clone, Copy, Debug, PartialEq, Eq, PartialOrd, Ord, Hash, Structural)]
pub struct FieldId(pub u32);

/// A log file or a live connection.
pub struct SourceInfo {
    pub id: SourceId,
    pub label: String,
    pub removed: bool,
    pub offset_us: i64,
    pub topics: Vec<TopicId>,
}

/// A column of a topic. The multiplier is the bit pattern of a number.
pub struct Column {
    pub name: String,
    pub numeric: bool,
    pub unit: Option<String>,
    pub multiplier: u64,
}

/// The rows of a topic.
pub struct TopicData {
    pub rows: u64,
    pub columns: Vec<Column>,
}

/// A topic. Its name is a base name with an optional instance number.
pub struct TopicInfo {
    pub id: TopicId,
    pub source: SourceId,
    pub name: String,
    pub base: String,
    pub instance: Option<u32>,
    pub removed: bool,
    pub data: Option<TopicData>,
}

/// A field of a topic.
pub struct FieldInfo {
    pub id: FieldId,
    pub topic: TopicId,
    pub name: String,
    pub removed: bool,
}

/// What the store holds.
pub struct StoreSnapshot {
    pub sources: Vec<SourceInfo>,
    pub topics: Vec<TopicInfo>,
    pub fields: Vec<FieldInfo>,
}

/// The first topic with the id, from `i` on.
pub open spec fn topic_index(topics: Seq<TopicInfo>, id: TopicId, i: int) -> Option<int>
    decreases topics.len() - i,
{
    if i < 0 || i >= topics.len() {
        None
    } else if topics[i].id == id {
        Some(i)
    } else {
        topic_index(topics, id, i + 1)
    }
}

/// The first source with the id, from `i` on.
pub open spec fn source_index(sources: Seq<SourceInfo>, id: SourceId, i: int) -> Option<int>
    decreases sources.len() - i,
{
    if i < 0 || i >= sources.len() {
        None
    } else if sources[i].id == id {
        Some(i)
    } else {
        source_index(sources, id, i + 1)
    }
}

/// The first column with the name, from `i` on.
pub open spec fn column_index(columns: Seq<Column>, name: Seq<char>, i: int) -> Option<int>
    decreases columns.len() - i,
{
    if i < 0 || i >= columns.len() {
        None
    } else if columns[i].name@ == name {
        Some(i)
    } else {
        column_index(columns, name, i + 1)
    }
}

pub open spec fn as_index(i: Option<usize>) -> Option<int> {
    match i {
        Some(i) => Some(i as int),
        None => None,
    }
}

impl StoreSnapshot {
    /// A store without sources.
    pub fn empty() -> (r: StoreSnapshot)
        ensures
            r.sources@.len() == 0,
            r.topics@.len() == 0,
            r.fields@.len() == 0,
    {
        StoreSnapshot { sources: Vec::new(), topics: Vec::new(), fields: Vec::new() }
    }

    /// Where the topic stands in the list.
    pub fn find_topic(&self, id: TopicId) -> (r: Option<usize>)
        ensures
            as_index(r) == topic_index(self.topics@, id, 0),
            r matches Some(i) ==> i < self.topics@.len() && self.topics@[i as int].id == id,
    {
        let mut i: usize = 0;
        while i < self.topics.len()
            invariant
                i <= self.topics@.len(),
                topic_index(self.topics@, id, 0) == topic_index(self.topics@, id, i as int),
            decreases self.topics@.len() - i,
        {
            if self.topics[i].id == id {
                return Some(i);
            }
            i = i + 1;
        }
        None
    }

    /// Where the source stands in the list.
    pub fn find_source(&self, id: SourceId) -> (r: Option<usize>)
        ensures
            as_index(r) == source_index(self.sources@, id, 0),
            r matches Some(i) ==> i < self.sources@.len() && self.sources@[i as int].id == id,
    {
        let mut i: usize = 0;
        while i < self.sources.len()
            invariant
                i <= self.sources@.len(),
                source_index(self.sources@, id, 0) == source_index(self.sources@, id, i as int),
            decreases self.sources@.len() - i,
        {
            if self.sources[i].id == id {
                return Some(i);
            }
            i = i + 1;
        }
        None
    }
}

/// Where the column stands in the list.
pub fn find_column(columns: &Vec<Column>, name: &str) -> (r: Option<usize>)
    ensures
        as_index(r) == column_index(columns@, name@, 0),
        r matches Some(i) ==> i < columns@.len() && columns@[i as int].name@ == name@,
{
    let mut i: usize = 0;
    while i < columns.len()
        invariant
            i <= columns@.len(),
            column_index(columns@, name@, 0) == column_index(columns@, name@, i as int),
        decreases columns@.len() - i,
    {
        if same_text(columns[i].name.as_str(), name) {
            return Some(i);
        }
        i = i + 1;
    }
    None
}

} // verus!
