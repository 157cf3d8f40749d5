//! A handler that counts what a document holds: tags, depth, character data,
//! and how often each tag name occurs.

use vstd::prelude::*;
use vstd::hash_map::StringHashMap;
use vstd::utf8::encode_utf8;
use crate::error::IksError;
use crate::helper::{add_held, held};
use crate::parser::SaxHandler;
use crate::sax::{AttrModel, TagType};
use crate::text::same_text;

verus! {

/// What was counted.
#[derive(Debug, Clone, Copy, PartialEq, Eq, Structural)]
pub struct Stats {
    /// How many elements are open.
    pub level: u32,
    /// The most elements that were open at once.
    pub max_depth: u32,
    /// How many elements were closed by a closing tag.
    pub nr_tags: u32,
    /// How many elements closed themselves.
    pub nr_stags: u32,
    /// How many bytes of character data were seen.
    pub cdata_size: usize,
}

/// How often a tag name occurred.
pub type CountModel = (Seq<char>, u32);

/// The counting handler as mathematics.
pub struct TagModel {
    pub stats: Stats,
    /// The names of the open elements, the outermost first.
    pub stack: Seq<Seq<char>>,
    /// The names that occurred, each once, in the order of their first
    /// occurrence.
    pub names: Seq<Seq<char>>,
    /// How often each name occurred.
    pub counts: Map<Seq<char>, u32>,
}

/// A handler that counts. Every count stops at the largest number that it can
/// hold.
///
/// A closing tag that names another element than the innermost open one is
/// refused with `BadXml`; the element counts as left all the same.
pub struct TagHandler {
    stats: Stats,
    tag_stack: Vec<String>,
    tag_names: Vec<String>,
    tag_counts: StringHashMap<u32>,
}

/// A count one higher, held at the largest number.
pub open spec fn more(n: u32) -> u32 {
    if n < u32::MAX {
        (n + 1) as u32
    } else {
        n
    }
}

/// A count one lower, held at zero.
pub open spec fn less(n: u32) -> u32 {
    if n > 0 {
        (n - 1) as u32
    } else {
        n
    }
}

/// How often `name` occurred.
pub open spec fn count_of(counts: Map<Seq<char>, u32>, name: Seq<char>) -> u32 {
    if counts.contains_key(name) {
        counts[name]
    } else {
        0
    }
}

/// The handler after one more occurrence of `name`.
pub open spec fn counted(model: TagModel, name: Seq<char>) -> TagModel {
    TagModel {
        names: if model.counts.contains_key(name) {
            model.names
        } else {
            model.names.push(name)
        },
        counts: model.counts.insert(name, more(count_of(model.counts, name))),
        ..model
    }
}

/// The names with their counts, in the order of first occurrence.
pub open spec fn listed(model: TagModel) -> Seq<CountModel> {
    model.names.map_values(|name: Seq<char>| (name, count_of(model.counts, name)))
}

/// A handler that has counted nothing.
pub open spec fn empty_count() -> TagModel {
    TagModel {
        stats: Stats { level: 0, max_depth: 0, nr_tags: 0, nr_stags: 0, cdata_size: 0 },
        stack: Seq::empty(),
        names: Seq::empty(),
        counts: Map::empty(),
    }
}

/// What a tag does to the counts, and the error where it is refused.
pub open spec fn count_tag(model: TagModel, name: Seq<char>, tag_type: TagType) -> (
    TagModel,
    Option<IksError>,
) {
    match tag_type {
        TagType::Open => (
            TagModel {
                stats: Stats {
                    level: more(model.stats.level),
                    max_depth: if more(model.stats.level) > model.stats.max_depth {
                        more(model.stats.level)
                    } else {
                        model.stats.max_depth
                    },
                    ..model.stats
                },
                stack: model.stack.push(name),
                ..model
            },
            None,
        ),
        TagType::Close => {
            let left = if model.stack.len() > 0 {
                model.stack.drop_last()
            } else {
                model.stack
            };
            if model.stack.len() > 0 && model.stack.last() != name {
                (TagModel { stack: left, ..model }, Some(IksError::BadXml))
            } else {
                (
                    counted(
                        TagModel {
                            stats: Stats {
                                level: less(model.stats.level),
                                nr_tags: more(model.stats.nr_tags),
                                ..model.stats
                            },
                            stack: left,
                            ..model
                        },
                        name,
                    ),
                    None,
                )
            }
        },
        TagType::Single => (
            counted(
                TagModel {
                    stats: Stats { nr_stags: more(model.stats.nr_stags), ..model.stats },
                    ..model
                },
                name,
            ),
            None,
        ),
    }
}

/// What character data does to the counts: its bytes are added.
pub open spec fn count_cdata(model: TagModel, data: Seq<char>) -> TagModel {
    TagModel {
        stats: Stats {
            cdata_size: held(model.stats.cdata_size + (encode_utf8(data).len() as usize)) as usize,
            ..model.stats
        },
        ..model
    }
}

/// The names of a row of strings.
pub open spec fn names_model(names: Seq<String>) -> Seq<Seq<char>> {
    names.map_values(|name: String| name@)
}

/// The counts of a row of pairs.
pub open spec fn counts_model(counts: Seq<(String, u32)>) -> Seq<CountModel> {
    counts.map_values(|pair: (String, u32)| (pair.0@, pair.1))
}

impl View for TagHandler {
    type V = TagModel;

    closed spec fn view(&self) -> TagModel {
        TagModel {
            stats: self.stats,
            stack: names_model(self.tag_stack@),
            names: names_model(self.tag_names@),
            counts: self.tag_counts@,
        }
    }
}

/// See [`more`].
fn one_more(n: u32) -> (m: u32)
    ensures
        m == more(n),
{
    if n < u32::MAX {
        n + 1
    } else {
        n
    }
}

impl SaxHandler for TagHandler {
    open spec fn tag_step(
        &self,
        name: Seq<char>,
        attributes: Seq<AttrModel>,
        tag_type: TagType,
        post: &Self,
        refusal: Option<IksError>,
    ) -> bool {
        post@ == count_tag(self@, name, tag_type).0 && refusal == count_tag(
            self@,
            name,
            tag_type,
        ).1
    }

    open spec fn cdata_step(&self, data: Seq<char>, post: &Self, refusal: Option<IksError>) -> bool {
        post@ == count_cdata(self@, data) && refusal is None
    }

    fn on_tag(&mut self, name: &str, attributes: &[(String, String)], tag_type: TagType) -> (reply:
        Result<(), IksError>) {
        match tag_type {
            TagType::Open => {
                self.tag_stack.push(name.to_owned());
                self.stats.level = one_more(self.stats.level);
                if self.stats.level > self.stats.max_depth {
                    self.stats.max_depth = self.stats.level;
                }
                assert(names_model(self.tag_stack@) =~= old(self)@.stack.push(name@));
                Ok(())
            },
            TagType::Close => {
                match self.tag_stack.pop() {
                    Some(expected) => {
                        assert(names_model(self.tag_stack@) =~= old(self)@.stack.drop_last());
                        assert(expected@ == old(self)@.stack.last());
                        if !same_text(expected.as_str(), name) {
                            return Err(IksError::BadXml);
                        }
                    },
                    None => {
                        assert(old(self)@.stack.len() == 0);
                    },
                }
                if self.stats.level > 0 {
                    self.stats.level = self.stats.level - 1;
                }
                self.stats.nr_tags = one_more(self.stats.nr_tags);
                self.count(name);
                Ok(())
            },
            TagType::Single => {
                self.stats.nr_stags = one_more(self.stats.nr_stags);
                self.count(name);
                Ok(())
            },
        }
    }

    fn on_cdata(&mut self, data: &str) -> (reply: Result<(), IksError>) {
        self.stats.cdata_size = add_held(self.stats.cdata_size, data.len());
        Ok(())
    }
}

impl TagHandler {
    /// A handler that has counted nothing.
    pub fn new() -> (handler: Self)
        ensures
            handler@ == empty_count(),
    {
        let handler = TagHandler {
            stats: Stats { level: 0, max_depth: 0, nr_tags: 0, nr_stags: 0, cdata_size: 0 },
            tag_stack: Vec::new(),
            tag_names: Vec::new(),
            tag_counts: StringHashMap::new(),
        };
        assert(names_model(handler.tag_stack@) =~= Seq::empty());
        assert(names_model(handler.tag_names@) =~= Seq::empty());
        handler
    }

    /// What was counted.
    pub fn stats(&self) -> (stats: Stats)
        ensures
            stats == self@.stats,
    {
        self.stats
    }

    /// How often `name` occurred.
    pub fn count_of(&self, name: &str) -> (count: u32)
        ensures
            count == count_of(self@.counts, name@),
    {
        match self.tag_counts.get(name) {
            Some(count) => *count,
            None => 0,
        }
    }

    /// How often each tag name occurred, in the order of first occurrence.
    pub fn histogram(&self) -> (counts: Vec<(String, u32)>)
        ensures
            counts_model(counts@) == listed(self@),
    {
        let mut counts: Vec<(String, u32)> = Vec::new();
        let mut i: usize = 0;
        while i < self.tag_names.len()
            invariant
                i <= self.tag_names.len(),
                counts_model(counts@) == listed(self@).take(i as int),
            decreases self.tag_names.len() - i,
        {
            let name = self.tag_names[i].clone();
            let count = self.count_of(name.as_str());
            let ghost before = counts@;
            counts.push((name, count));
            assert(counts_model(counts@) =~= counts_model(before).push((name@, count)));
            assert(listed(self@).take(i + 1) =~= listed(self@).take(i as int).push(
                listed(self@)[i as int],
            ));
            i = i + 1;
        }
        assert(listed(self@).take(i as int) =~= listed(self@));
        counts
    }

    /// Counts one more occurrence of `name`.
    fn count(&mut self, name: &str)
        ensures
            final(self)@ == counted(old(self)@, name@),
    {
        let known = self.tag_counts.contains_key(name);
        let count = self.count_of(name);
        self.tag_counts.insert(name.to_owned(), one_more(count));
        if !known {
            self.tag_names.push(name.to_owned());
            assert(names_model(self.tag_names@) =~= old(self)@.names.push(name@));
        }
    }
}

} // verus!
