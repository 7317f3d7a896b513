//! The page index: the ids of the pages and the text of their titles, each
//! found by the other.

use std::collections::HashMap;
use vstd::prelude::*;
use vstd::utf8::{decode_utf8, valid_utf8};
use crate::rows::{index_row, parse_index_row, trim, trimmed};
use crate::title::text_of;
use crate::title_map::TitleMap;
use vstd::slice::{slice_subrange, slice_to_vec};

verus! {

/// What a page index holds, as mathematical values.
pub struct PageIndexView {
    /// The id of the page with a given title, the title as bytes.
    pub title_to_id: Map<Seq<u8>, usize>,
    /// The title of the page with a given id.
    pub id_to_title: Map<usize, Seq<char>>,
}

impl PageIndexView {
    /// The index without pages.
    pub open spec fn empty() -> PageIndexView {
        PageIndexView { title_to_id: Map::empty(), id_to_title: Map::empty() }
    }

    /// The index after a line of the index file: an id, a tab and a title.
    /// A line that is no such row, or whose title is no text, leaves the
    /// index as it is.
    pub open spec fn after_line(self, line: Seq<u8>) -> PageIndexView {
        match index_row(line) {
            Some((id, title)) => if valid_utf8(title) {
                PageIndexView {
                    title_to_id: self.title_to_id.insert(title, id),
                    id_to_title: self.id_to_title.insert(id, decode_utf8(title)),
                }
            } else {
                self
            },
            None => self,
        }
    }

    /// The index after the first `n` of `lines`.
    pub open spec fn after_lines(self, lines: Seq<Seq<u8>>, n: nat) -> PageIndexView
        decreases n,
    {
        if n == 0 {
            self
        } else {
            self.after_lines(lines, (n - 1) as nat).after_line(lines[n - 1])
        }
    }

    /// The id of the page whose title is `typed` without the white space
    /// around it.
    pub open spec fn id_of(self, typed: Seq<u8>) -> Option<usize> {
        if self.title_to_id.contains_key(trimmed(typed)) {
            Some(self.title_to_id[trimmed(typed)])
        } else {
            None
        }
    }
}

/// The titles of a table of titles by id.
pub open spec fn text_views(table: Map<usize, String>) -> Map<usize, Seq<char>> {
    Map::new(|id: usize| table.contains_key(id), |id: usize| table[id]@)
}

/// The ids of the pages and the text of their titles.
pub struct PageIndex {
    title_to_id: TitleMap,
    id_to_title: HashMap<usize, String>,
}

impl View for PageIndex {
    type V = PageIndexView;

    closed spec fn view(&self) -> PageIndexView {
        PageIndexView { title_to_id: self.title_to_id@, id_to_title: text_views(self.id_to_title@) }
    }
}

impl PageIndex {
    /// The index without pages.
    pub fn new() -> (r: PageIndex)
        ensures
            r@ == PageIndexView::empty(),
    {
        let r = PageIndex { title_to_id: TitleMap::new(), id_to_title: HashMap::new() };
        assert(r@.id_to_title =~= Map::<usize, Seq<char>>::empty());
        r
    }

    /// Takes a line of the index file.
    pub fn add_line(&mut self, line: &[u8])
        ensures
            final(self)@ == old(self)@.after_line(line@),
    {
        let row = match parse_index_row(line) {
            Some(row) => row,
            None => {
                return ;
            },
        };
        let key = slice_to_vec(row.title.as_slice());
        match text_of(row.title) {
            Some(text) => {
                proof {
                    assert(text_views(self.id_to_title@.insert(row.id, text)) =~= text_views(
                        self.id_to_title@,
                    ).insert(row.id, text@));
                }
                self.id_to_title.insert(row.id, text);
                self.title_to_id.insert(key, row.id);
            },
            None => {},
        }
    }

    /// The index that the lines of an index file give.
    pub fn load(lines: &Vec<Vec<u8>>) -> (r: PageIndex)
        ensures
            r@ == PageIndexView::empty().after_lines(lines@.map_values(|l: Vec<u8>| l@), lines@.len()),
    {
        let mut index = PageIndex::new();
        let mut i: usize = 0;
        while i < lines.len()
            invariant
                i <= lines@.len(),
                index@ == PageIndexView::empty().after_lines(lines@.map_values(|l: Vec<u8>| l@), i as nat),
            decreases lines@.len() - i,
        {
            assert(lines@.map_values(|l: Vec<u8>| l@)[i as int] == lines@[i as int]@);
            index.add_line(lines[i].as_slice());
            i += 1;
        }
        index
    }

    /// The id of the page whose title is `typed` without the white space
    /// around it.
    pub fn id_of(&self, typed: &[u8]) -> (r: Option<usize>)
        ensures
            r == self@.id_of(typed@),
    {
        let (from, to) = trim(typed);
        self.title_to_id.get(slice_subrange(typed, from, to))
    }

    /// The title of the page `id`.
    pub fn title_of(&self, id: usize) -> (r: Option<&String>)
        ensures
            match r {
                Some(title) => self@.id_to_title.contains_key(id) && self@.id_to_title[id] == title@,
                None => !self@.id_to_title.contains_key(id),
            },
    {
        self.id_to_title.get(&id)
    }
}

} // verus!
