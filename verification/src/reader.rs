//! The reader's bookkeeping: which block a stored place still belongs to, where a page turn off
//! either end of a chapter goes, what the foot of the page says, and the plates kept decoded for
//! a while after they are drawn.

use vstd::prelude::*;
use vstd::string::*;
use crate::words::{decimal, decimal_text};

verus! {

/// How many decoded plates are kept. A plate is uploaded at a bounded size, so a count bounds
/// the memory too.
pub const PLATE_CACHE: usize = 12;

/// Whether the block at `block` of `blocks` (each its starting character and how many it holds)
/// still holds character `offset`.
pub open spec fn holds_place(blocks: Seq<(u64, u64)>, block: int, offset: u64) -> bool {
    &&& 0 <= block < blocks.len()
    &&& blocks[block].0 <= offset
    &&& offset <= blocks[block].0 + blocks[block].1
}

/// The block a stored place names, believed only while it still holds the place's character:
/// a chapter that changed under it, or a bookmark from another machine, falls back to the
/// character alone (`None`).
pub fn believed_block(blocks: &Vec<(u64, u64)>, block: Option<usize>, offset: u64) -> (r: Option<usize>)
    ensures
        r == (match block {
            Some(b) => if holds_place(blocks@, b as int, offset) { Some(b) } else { None },
            None => None,
        }),
{
    match block {
        Some(b) => {
            if b < blocks.len() && blocks[b].0 <= offset && (offset as u128) <= (blocks[b].0 as u128) + (blocks[b].1 as u128) {
                Some(b)
            } else {
                None
            }
        },
        None => None,
    }
}

/// Where the reader picks a chapter up again.
#[derive(PartialEq, Eq, Structural, Debug, Clone, Copy)]
pub enum Resumption {
    /// Past the chapter's last block (the count of its blocks): where turning back into a
    /// chapter lands.
    End(usize),
    /// At the block the stored place named, which still holds its character; the row within it
    /// is found by measuring.
    Block(usize),
    /// At the character alone, the only thing left to go on.
    Offset,
}

/// Where the reader resumes in a chapter of `blocks`, given the block it was on (if any) and the
/// character it had reached. The largest offset stands for the chapter's end, which is what
/// turning back into a chapter asks for; otherwise the named block is kept while it still holds
/// the character, and the character alone decides when it does not.
pub fn resume(blocks: &Vec<(u64, u64)>, block: Option<usize>, offset: usize) -> (r: Resumption)
    ensures
        offset == usize::MAX ==> r == Resumption::End(blocks.len()),
        offset != usize::MAX ==> r == (match block {
            Some(b) => if holds_place(blocks@, b as int, offset as u64) {
                Resumption::Block(b)
            } else {
                Resumption::Offset
            },
            None => Resumption::Offset,
        }),
{
    if offset == usize::MAX {
        return Resumption::End(blocks.len());
    }
    match believed_block(blocks, block, offset as u64) {
        Some(b) => Resumption::Block(b),
        None => Resumption::Offset,
    }
}

/// Decoded plates of one book, kept while they are worth keeping: at most [`PLATE_CACHE`] of
/// them, the oldest given up first, all of them when the book changes. A plate that would not
/// decode is kept too (as `None`), so that it is not read again every frame.
pub struct Plates<T> {
    book: Option<String>,
    /// Oldest first.
    held: Vec<(String, Option<T>)>,
}

impl<T> Plates<T> {
    /// The book the plates belong to.
    pub closed spec fn book_of(&self) -> Option<Seq<char>> {
        match self.book {
            Some(b) => Some(b@),
            None => None,
        }
    }

    /// What is kept, oldest first: each plate's path and what decoding it gave.
    pub closed spec fn entries(&self) -> Seq<(Seq<char>, Option<T>)> {
        self.held@.map_values(|e: (String, Option<T>)| (e.0@, e.1))
    }

    /// At most [`PLATE_CACHE`] plates, each path once.
    pub open spec fn wf(&self) -> bool {
        &&& self.entries().len() <= PLATE_CACHE
        &&& forall|i: int, j: int| 0 <= i < j < self.entries().len() ==> self.entries()[i].0 != self.entries()[j].0
    }

    pub fn new() -> (r: Plates<T>)
        ensures
            r.wf(),
            r.book_of() is None,
            r.entries().len() == 0,
    {
        let r = Plates { book: None, held: Vec::new() };
        assert(r.entries() =~= Seq::empty());
        r
    }

    /// Turn to `book`: a different book (or none) forgets every plate.
    pub fn open(&mut self, book: &Option<String>)
        requires
            old(self).wf(),
        ensures
            final(self).wf(),
            final(self).book_of() == (match *book { Some(b) => Some(b@), None => None }),
            final(self).entries() == (if old(self).book_of() == final(self).book_of() {
                old(self).entries()
            } else {
                Seq::empty()
            }),
    {
        let same = match (&self.book, book) {
            (Some(a), Some(b)) => a.eq(b),
            (None, None) => true,
            _ => false,
        };
        if !same {
            self.book = match book {
                Some(b) => Some(b.clone()),
                None => None,
            };
            self.held = Vec::new();
            assert(self.entries() =~= Seq::empty());
        }
    }

    /// Where `path` is kept, if it is.
    fn find(&self, path: &str) -> (r: Option<usize>)
        ensures
            match r {
                Some(i) => i < self.entries().len() && self.entries()[i as int].0 == path@,
                None => forall|i: int| 0 <= i < self.entries().len() ==> self.entries()[i].0 != path@,
            },
    {
        let mut i: usize = 0;
        while i < self.held.len()
            invariant
                i <= self.held.len(),
                self.entries().len() == self.held.len(),
                forall|j: int| 0 <= j < i ==> self.entries()[j].0 != path@,
            decreases self.held.len() - i,
        {
            let here = self.held[i].0.as_str();
            assert(self.entries()[i as int].0 == here@);
            if here.unicode_len() == path.unicode_len() && same_text(here, path) {
                return Some(i);
            }
            i += 1;
        }
        None
    }

    /// What decoding `path` gave, if it is kept: `Some(None)` for a plate that would not decode.
    pub fn held(&self, path: &str) -> (r: Option<&Option<T>>)
        ensures
            match r {
                Some(v) => exists|i: int| 0 <= i < self.entries().len() && self.entries()[i] == (path@, *v),
                None => forall|i: int| 0 <= i < self.entries().len() ==> self.entries()[i].0 != path@,
            },
    {
        match self.find(path) {
            Some(i) => {
                assert(self.entries()[i as int] == (path@, self.held@[i as int].1));
                Some(&self.held[i].1)
            },
            None => None,
        }
    }

    /// Keep what decoding `path` gave, as the newest plate, giving up the oldest beyond
    /// [`PLATE_CACHE`]. For a path not kept already.
    pub fn keep(&mut self, path: String, decoded: Option<T>)
        requires
            old(self).wf(),
            forall|i: int| 0 <= i < old(self).entries().len() ==> old(self).entries()[i].0 != path@,
        ensures
            final(self).wf(),
            final(self).book_of() == old(self).book_of(),
            final(self).entries() == kept_after(old(self).entries(), path@, decoded),
    {
        let ghost grown = self.entries().push((path@, decoded));
        self.held.push((path, decoded));
        assert(self.entries() =~= grown);
        if self.held.len() > PLATE_CACHE {
            self.held.remove(0);
            assert(self.entries() =~= grown.drop_first());
        }
    }
}

/// What is kept once `path` is: it, newest, after what was, less the oldest beyond
/// [`PLATE_CACHE`].
pub open spec fn kept_after<T>(entries: Seq<(Seq<char>, Option<T>)>, path: Seq<char>, decoded: Option<T>) -> Seq<(Seq<char>, Option<T>)> {
    let grown = entries.push((path, decoded));
    if grown.len() > PLATE_CACHE { grown.drop_first() } else { grown }
}

/// Whether `a` and `b`, of one length, hold the same characters.
fn same_text(a: &str, b: &str) -> (r: bool)
    requires
        a@.len() == b@.len(),
    ensures
        r == (a@ == b@),
{
    let n = a.unicode_len();
    let mut i: usize = 0;
    while i < n
        invariant
            i <= n,
            n == a@.len(),
            a@.len() == b@.len(),
            forall|j: int| 0 <= j < i ==> a@[j] == b@[j],
        decreases n - i,
    {
        if a.get_char(i) != b.get_char(i) {
            return false;
        }
        i += 1;
    }
    assert(a@ =~= b@);
    true
}

/// Once a plate is kept it is found again, with what decoding it gave: `held` can give
/// nothing else for its path.
pub proof fn law_a_kept_plate_is_found<T>(before: Plates<T>, after: Plates<T>, path: Seq<char>, decoded: Option<T>)
    requires
        before.wf(),
        after.wf(),
        forall|i: int| 0 <= i < before.entries().len() ==> before.entries()[i].0 != path,
        after.entries() == kept_after(before.entries(), path, decoded),
    ensures
        exists|i: int| 0 <= i < after.entries().len() && after.entries()[i] == (path, decoded),
        forall|i: int| 0 <= i < after.entries().len() && after.entries()[i].0 == path ==> after.entries()[i].1 == decoded,
{
    let n = after.entries().len() - 1;
    assert(after.entries()[n] == (path, decoded));
    assert forall|i: int| 0 <= i < after.entries().len() && after.entries()[i].0 == path implies after.entries()[i].1 == decoded by {
        if i != n {
            assert(after.entries()[i].0 != after.entries()[n].0);
        }
    }
}

/// Where a page turn off the end of chapter `spine`, forward or back, goes: the head of the next
/// chapter, or the end of the one before (`usize::MAX` reads as its last place). `None` past
/// the book's first or last chapter, where the book stops.
pub fn cross_chapter(forward: bool, spine: usize, spine_count: usize) -> (r: Option<(usize, usize)>)
    ensures
        r == if forward {
            if spine + 1 < spine_count { Some(((spine + 1) as usize, 0usize)) } else { None }
        } else if spine > 0 {
            Some(((spine - 1) as usize, usize::MAX))
        } else {
            None
        },
{
    if forward {
        if spine < spine_count && spine + 1 < spine_count { Some((spine + 1, 0)) } else { None }
    } else if spine > 0 {
        Some((spine - 1, usize::MAX))
    } else {
        None
    }
}

/// Whether the chapter open is the one being read, `reading` held to the book's chapters. A
/// chapter is fetched a frame after it is asked for, and until then a page turn waits rather
/// than running off the end of the chapter just left.
pub fn open_is_current(open: usize, reading: usize, spine_count: usize) -> (r: bool)
    ensures
        r == (open == if reading < (if spine_count > 0 { spine_count - 1 } else { 0int }) {
            reading as int
        } else if spine_count > 0 {
            spine_count - 1
        } else {
            0int
        }),
{
    let last = if spine_count > 0 { spine_count - 1 } else { 0 };
    open == if reading < last { reading } else { last }
}

/// The foot of a page: which chapter of how many, and which page of how many in it. A count of
/// none reads as one.
pub open spec fn folio_of(spine: nat, spine_count: nat, number: nat, of: nat) -> (Seq<char>, Seq<char>) {
    ("chapter "@ + decimal(spine + 1) + " of "@ + decimal(if spine_count > 0 { spine_count } else { 1 }),
     "page "@ + decimal(number) + " of "@ + decimal(if of > 0 { of } else { 1 }))
}

pub fn folio_texts(spine: u64, spine_count: u64, number: u64, of: u64) -> (r: (String, String))
    requires
        spine < u64::MAX,
    ensures
        (r.0@, r.1@) == folio_of(spine as nat, spine_count as nat, number as nat, of as nat),
{
    proof {
        reveal_strlit("chapter ");
        reveal_strlit(" of ");
        reveal_strlit("page ");
    }
    let mut chapter = String::from_str("chapter ");
    chapter.append(decimal_text(spine + 1).as_str());
    chapter.append(" of ");
    chapter.append(decimal_text(if spine_count > 0 { spine_count } else { 1 }).as_str());
    let mut page = String::from_str("page ");
    page.append(decimal_text(number).as_str());
    page.append(" of ");
    page.append(decimal_text(if of > 0 { of } else { 1 }).as_str());
    (chapter, page)
}

/// Where the reader is: the chapter, the character offset in it, the block that offset is in
/// once it is known, and whether the reader has moved since the book opened.
#[derive(Clone, Copy, Debug, PartialEq, Eq, Structural)]
pub struct Place {
    pub spine: usize,
    pub offset: usize,
    pub block: Option<usize>,
    pub asked: bool,
}

/// The place once a frame's `turns` are spent: a turn is the reader moving, and marks it asked.
/// A turn off the chapter goes where [`cross_chapter`] says (`crossed`), in a block not yet
/// known. Otherwise the page now shown, starting at `start` in block `block`, is written down,
/// but only once the reader has moved: a window resized reflows the page, and resizing is not
/// reading.
pub open spec fn placed(p: Place, turns: i64, crossed: Option<(usize, usize)>, start: usize, block: usize) -> Place {
    let asked = p.asked || turns != 0;
    match crossed {
        Some((spine, offset)) => Place { spine, offset, block: None, asked },
        None => if asked {
            Place { spine: p.spine, offset: start, block: Some(block), asked }
        } else {
            p
        },
    }
}

pub fn write_place(p: Place, turns: i64, crossed: Option<(usize, usize)>, start: usize, block: usize) -> (r: Place)
    ensures
        r == placed(p, turns, crossed, start, block),
{
    let asked = p.asked || turns != 0;
    match crossed {
        Some((spine, offset)) => Place { spine, offset, block: None, asked },
        None => if asked {
            Place { spine: p.spine, offset: start, block: Some(block), asked }
        } else {
            p
        },
    }
}

/// Resizing is not reading: with no turn and no move before, the place stays as it was,
/// whatever page the new layout starts.
pub proof fn law_resizing_is_not_reading(p: Place, start: usize, block: usize)
    requires
        !p.asked,
    ensures
        placed(p, 0, None, start, block) == p,
{
}

/// A turn is the reader moving, whichever way: after any nonzero number of turns, back as well as
/// forward, that stay in the chapter, the page now shown is written down and the place is asked;
/// and once the reader has moved, every page shown after is written down, turned or not.
/// A turn off the chapter goes where the crossing says, asked too, its block not yet known.
pub proof fn law_a_turn_either_way_writes_the_page(p: Place, turns: i64, crossed: Option<(usize, usize)>, start: usize, block: usize)
    requires
        turns != 0 || p.asked,
    ensures
        crossed is None ==> placed(p, turns, crossed, start, block)
            == (Place { spine: p.spine, offset: start, block: Some(block), asked: true }),
        crossed is Some ==> placed(p, turns, crossed, start, block)
            == (Place { spine: crossed.unwrap().0, offset: crossed.unwrap().1, block: None, asked: true }),
{
}

} // verus!
