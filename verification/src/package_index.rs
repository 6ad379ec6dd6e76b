//! The index of a package: which part holds which sheet.

use crate::ooxml_util::{
    join_and_normalize, joined_path, pair_bytes, parse_relationship_targets,
    parse_workbook_sheet_rids, relationship_targets, workbook_sheets, PackageError,
};
use crate::text::{bytes_eq, utf8};
use crate::xml::{accepted, document_events};
use vstd::prelude::*;

verus! {

/// A list of keys with their values.
pub type Pairs = Seq<(Seq<u8>, Seq<u8>)>;

/// The value of the last pair with the given key.
pub open spec fn last_value(pairs: Pairs, key: Seq<u8>) -> Option<Seq<u8>>
    decreases pairs.len(),
{
    if pairs.len() == 0 {
        None
    } else if pairs.last().0 == key {
        Some(pairs.last().1)
    } else {
        last_value(pairs.drop_last(), key)
    }
}

/// Where the first pair with the given key stands.
pub open spec fn position(pairs: Pairs, key: Seq<u8>) -> Option<int>
    decreases pairs.len(),
{
    if pairs.len() == 0 {
        None
    } else {
        match position(pairs.drop_last(), key) {
            Some(at) => Some(at),
            None => if pairs.last().0 == key {
                Some(pairs.len() - 1)
            } else {
                None
            },
        }
    }
}

/// Whether no key occurs twice.
pub open spec fn distinct_keys(pairs: Pairs) -> bool {
    forall|i: int, j: int|
        0 <= i < j < pairs.len() ==> (#[trigger] pairs[i]).0 != (#[trigger] pairs[j]).0
}

/// Pairs with a value set for a key: in place of the old value where the
/// key is there, and else at the end.
pub open spec fn with_value(pairs: Pairs, key: Seq<u8>, value: Seq<u8>) -> Pairs {
    match position(pairs, key) {
        Some(at) => pairs.update(at, (key, value)),
        None => pairs.push((key, value)),
    }
}

/// What `position` finds.
pub proof fn lemma_position(pairs: Pairs, key: Seq<u8>)
    ensures
        match position(pairs, key) {
            Some(at) => {
                &&& 0 <= at < pairs.len()
                &&& pairs[at].0 == key
                &&& forall|i: int| 0 <= i < at ==> (#[trigger] pairs[i]).0 != key
            },
            None => forall|i: int| 0 <= i < pairs.len() ==> (#[trigger] pairs[i]).0 != key,
        },
    decreases pairs.len(),
{
    if pairs.len() > 0 {
        let head = pairs.drop_last();
        lemma_position(head, key);
        match position(head, key) {
            Some(at) => {
                assert(pairs[at] == head[at]);
                assert forall|i: int| 0 <= i < at implies (#[trigger] pairs[i]).0 != key by {
                    assert(pairs[i] == head[i]);
                }
            },
            None => {
                assert forall|i: int| 0 <= i < pairs.len() - 1 implies (#[trigger] pairs[i]).0
                    != key by {
                    assert(pairs[i] == head[i]);
                }
            },
        }
    }
}

/// Setting a value keeps the keys distinct.
pub proof fn lemma_with_value_distinct(pairs: Pairs, key: Seq<u8>, value: Seq<u8>)
    requires
        distinct_keys(pairs),
    ensures
        distinct_keys(with_value(pairs, key, value)),
{
    lemma_position(pairs, key);
    let after = with_value(pairs, key, value);
    assert forall|i: int, j: int| 0 <= i < j < after.len() implies (#[trigger] after[i]).0 != (
    #[trigger] after[j]).0 by {
        match position(pairs, key) {
            Some(at) => {
                assert(pairs[i].0 != pairs[j].0);
            },
            None => {
                if j < pairs.len() {
                    assert(pairs[i].0 != pairs[j].0);
                } else {
                    assert(pairs[i].0 != key);
                }
            },
        }
    }
}

/// The index that a workbook and its relationships give: for each sheet
/// whose relationship has a target, the name of the sheet and the path of
/// its part.  The sheets stand in the order of the workbook.  A name that
/// the workbook lists twice stands where it came first, with the path of its
/// last part; of two relationships with one id the last one counts.
pub open spec fn sheet_index(sheets: Pairs, targets: Pairs) -> Pairs
    decreases sheets.len(),
{
    if sheets.len() == 0 {
        Seq::empty()
    } else {
        let before = sheet_index(sheets.drop_last(), targets);
        match last_value(targets, sheets.last().1) {
            Some(target) => with_value(
                before,
                sheets.last().0,
                joined_path(utf8("xl/"@), target),
            ),
            None => before,
        }
    }
}

/// The names of the sheets of an index are distinct.
pub proof fn lemma_sheet_index_distinct(sheets: Pairs, targets: Pairs)
    ensures
        distinct_keys(sheet_index(sheets, targets)),
    decreases sheets.len(),
{
    if sheets.len() > 0 {
        lemma_sheet_index_distinct(sheets.drop_last(), targets);
        match last_value(targets, sheets.last().1) {
            Some(target) => {
                lemma_with_value_distinct(
                    sheet_index(sheets.drop_last(), targets),
                    sheets.last().0,
                    joined_path(utf8("xl/"@), target),
                );
            },
            None => {},
        }
    }
}

/// Finds the first pair with the given key.
pub fn find_key(pairs: &Vec<(String, String)>, key: &[u8]) -> (found: Option<usize>)
    ensures
        match found {
            Some(at) => position(pair_bytes(pairs@), key@) == Some(at as int) && at < pairs.len(),
            None => position(pair_bytes(pairs@), key@).is_none(),
        },
{
    let ghost all = pair_bytes(pairs@);
    let mut i: usize = 0;
    assert(all.subrange(0, 0) =~= Seq::<(Seq<u8>, Seq<u8>)>::empty());
    while i < pairs.len()
        invariant
            i <= pairs.len(),
            all == pair_bytes(pairs@),
            position(all.subrange(0, i as int), key@).is_none(),
        decreases pairs.len() - i,
    {
        let ghost next = all.subrange(0, i + 1);
        assert(next.drop_last() =~= all.subrange(0, i as int));
        assert(next.last() == all[i as int]);
        if bytes_eq(pairs[i].0.as_str().as_bytes(), key) {
            proof {
                lemma_position_stays(all, key@, i + 1);
            }
            return Some(i);
        }
        i += 1;
    }
    assert(all.subrange(0, pairs.len() as int) =~= all);
    None
}

/// A key that is found among the first pairs is found there among all.
pub proof fn lemma_position_stays(pairs: Pairs, key: Seq<u8>, len: int)
    requires
        0 <= len <= pairs.len(),
        position(pairs.subrange(0, len), key).is_some(),
    ensures
        position(pairs, key) == position(pairs.subrange(0, len), key),
    decreases pairs.len() - len,
{
    if len < pairs.len() {
        let next = pairs.subrange(0, len + 1);
        assert(next.drop_last() =~= pairs.subrange(0, len));
        lemma_position_stays(pairs, key, len + 1);
    } else {
        assert(pairs.subrange(0, len) =~= pairs);
    }
}

/// Finds the value of the last pair with the given key.
pub fn find_last<'a>(pairs: &'a Vec<(String, String)>, key: &[u8]) -> (found: Option<&'a String>)
    ensures
        match found {
            Some(value) => last_value(pair_bytes(pairs@), key@) == Some(utf8(value@)),
            None => last_value(pair_bytes(pairs@), key@).is_none(),
        },
{
    let ghost all = pair_bytes(pairs@);
    let mut i: usize = pairs.len();
    assert(all.subrange(0, i as int) =~= all);
    while i > 0
        invariant
            i <= pairs.len(),
            all == pair_bytes(pairs@),
            last_value(all, key@) == last_value(all.subrange(0, i as int), key@),
        decreases i,
    {
        let ghost here = all.subrange(0, i as int);
        assert(here.drop_last() =~= all.subrange(0, i - 1));
        assert(here.last() == all[i - 1]);
        i -= 1;
        if bytes_eq(pairs[i].0.as_str().as_bytes(), key) {
            return Some(&pairs[i].1);
        }
    }
    None
}

/// Which part holds which sheet of a package.
#[derive(Debug, Clone)]
pub struct PackageIndex {
    /// For each sheet its name and the path of its part, in the order of the
    /// workbook.
    pub entries: Vec<(String, String)>,
}

impl PackageIndex {
    /// The sheets of the index: their names and the paths of their parts.
    pub open spec fn view(&self) -> Pairs {
        pair_bytes(self.entries@)
    }

    /// An index is well formed when no sheet stands in it twice.
    pub open spec fn well_formed(&self) -> bool {
        distinct_keys(self@)
    }

    /// Builds the index of a package from its workbook part and from the
    /// relationships of the workbook.
    ///
    /// Fails exactly when the parser rejects one of the two parts, the
    /// workbook first.
    pub fn build(workbook_xml: &str, rels_xml: &str) -> (result: Result<PackageIndex, PackageError>)
        ensures
            match result {
                Ok(index) => {
                    &&& accepted(document_events(utf8(workbook_xml@)))
                    &&& accepted(document_events(utf8(rels_xml@)))
                    &&& index@ == sheet_index(
                        workbook_sheets(utf8(workbook_xml@)),
                        relationship_targets(utf8(rels_xml@)),
                    )
                    &&& index.well_formed()
                },
                Err(e) => if accepted(document_events(utf8(workbook_xml@))) {
                    e == PackageError::Relationships && !accepted(
                        document_events(utf8(rels_xml@)),
                    )
                } else {
                    e == PackageError::Workbook
                },
            },
    {
        let sheets = match parse_workbook_sheet_rids(workbook_xml) {
            Ok(sheets) => sheets,
            Err(e) => {
                return Err(e);
            },
        };
        let targets = match parse_relationship_targets(rels_xml) {
            Ok(targets) => targets,
            Err(e) => {
                return Err(e);
            },
        };
        let ghost all = pair_bytes(sheets@);
        let ghost rels = pair_bytes(targets@);
        let mut entries: Vec<(String, String)> = Vec::new();
        let mut i: usize = 0;
        assert(all.subrange(0, 0) =~= Seq::<(Seq<u8>, Seq<u8>)>::empty());
        assert(pair_bytes(entries@) =~= Seq::<(Seq<u8>, Seq<u8>)>::empty());
        while i < sheets.len()
            invariant
                i <= sheets.len(),
                all == pair_bytes(sheets@),
                rels == pair_bytes(targets@),
                pair_bytes(entries@) == sheet_index(all.subrange(0, i as int), rels),
            decreases sheets.len() - i,
        {
            let ghost next = all.subrange(0, i + 1);
            assert(next.drop_last() =~= all.subrange(0, i as int));
            assert(next.last() == all[i as int]);
            let ghost before = pair_bytes(entries@);
            match find_last(&targets, sheets[i].1.as_str().as_bytes()) {
                Some(target) => {
                    let path = join_and_normalize("xl/", target.as_str());
                    let name = sheets[i].0.clone();
                    match find_key(&entries, name.as_str().as_bytes()) {
                        Some(at) => {
                            entries.set(at, (name, path));
                            assert(pair_bytes(entries@) =~= before.update(
                                at as int,
                                (utf8(name@), utf8(path@)),
                            ));
                        },
                        None => {
                            entries.push((name, path));
                            assert(pair_bytes(entries@) =~= before.push((utf8(name@), utf8(path@))));
                        },
                    }
                },
                None => {},
            }
            i += 1;
        }
        assert(all.subrange(0, sheets.len() as int) =~= all);
        proof {
            lemma_sheet_index_distinct(all, rels);
        }
        Ok(PackageIndex { entries })
    }

    /// The path of the part that holds a sheet.
    pub fn path_of(&self, sheet: &str) -> (path: Option<&String>)
        ensures
            match path {
                Some(p) => position(self@, utf8(sheet@)) matches Some(at) && self@[at].1 == utf8(
                    p@,
                ),
                None => position(self@, utf8(sheet@)).is_none(),
            },
    {
        match find_key(&self.entries, sheet.as_bytes()) {
            Some(at) => {
                assert(self@[at as int] == (
                    utf8(self.entries@[at as int].0@),
                    utf8(self.entries@[at as int].1@),
                ));
                Some(&self.entries[at].1)
            },
            None => None,
        }
    }

    /// The names of the sheets, in the order of the workbook.
    pub fn sheet_names(&self) -> (names: Vec<String>)
        ensures
            names@.len() == self@.len(),
            forall|i: int| 0 <= i < names@.len() ==> utf8((#[trigger] names@[i])@) == self@[i].0,
    {
        let mut names: Vec<String> = Vec::new();
        let mut i: usize = 0;
        while i < self.entries.len()
            invariant
                i <= self.entries.len(),
                names@.len() == i,
                forall|k: int| 0 <= k < i ==> utf8((#[trigger] names@[k])@) == self@[k].0,
            decreases self.entries.len() - i,
        {
            names.push(self.entries[i].0.clone());
            i += 1;
        }
        names
    }
}

} // verus!
