//! Directory payloads and paths.
//!
//! A directory's payload is a text of lines `<inum>:<name>\n`, closed by one
//! `\0`. `<inum>` is the inumber in decimal. What follows the `\0` is not
//! part of the directory. A name can hold any byte but `\n` and `\0`.

use crate::text::{
    bytes_eq, copy_range, decimal, find, first_index, is_first_index, lemma_decimal,
    lemma_decimal_round_trip, lemma_first_index, lemma_tokens, lemma_tokens_concat,
    lemma_tokens_single, parse_decimal, push_decimal, read_decimal, tokenize, tokens, views,
};
use vstd::prelude::*;

verus! {

/// Ends the payload of a directory.
pub const NUL: u8 = 0;

/// Ends an entry of a directory.
pub const NEWLINE: u8 = 10;

/// The name of the directory itself.
pub const DOT: u8 = 46;

/// Separates the components of a path; alone, the root.
pub const SLASH: u8 = 47;

/// Separates inumber and name in an entry of a directory.
pub const COLON: u8 = 58;

/// Whether a directory can hold `name`: no byte of it ends a line or the
/// payload.
pub open spec fn storable(name: Seq<u8>) -> bool {
    !name.contains(NEWLINE) && !name.contains(NUL)
}

/// Whether a directory can hold every name of `list`.
pub open spec fn all_storable(list: Seq<(Seq<u8>, u32)>) -> bool {
    forall|i: int| 0 <= i < list.len() ==> storable((#[trigger] list[i]).0)
}

/// The mapping from name to inumber that the entries `list` stand for. Of
/// two entries with one name the later one counts.
pub open spec fn mapping(list: Seq<(Seq<u8>, u32)>) -> Map<Seq<u8>, u32>
    decreases list.len(),
{
    if list.len() == 0 {
        Map::empty()
    } else {
        mapping(list.drop_last()).insert(list.last().0, list.last().1)
    }
}

/// The entry that one line holds, without its `\n`: the text before the
/// first `:` is the inumber, the text after it the name.
pub open spec fn parse_line(line: Seq<u8>) -> Option<(Seq<u8>, u32)> {
    let c = first_index(line, COLON) as int;
    if c >= line.len() {
        None
    } else {
        match parse_decimal(line.take(c)) {
            Some(inum) => Some((line.skip(c + 1), inum)),
            None => None,
        }
    }
}

/// The entries that the lines hold, if every line holds one.
pub open spec fn parse_lines(lines: Seq<Seq<u8>>) -> Option<Seq<(Seq<u8>, u32)>>
    decreases lines.len(),
{
    if lines.len() == 0 {
        Some(Seq::empty())
    } else {
        match (parse_lines(lines.drop_last()), parse_line(lines.last())) {
            (Some(list), Some(entry)) => Some(list.push(entry)),
            _ => None,
        }
    }
}

/// The part of a payload that counts: what stands before the first `\0`.
pub open spec fn content(payload: Seq<u8>) -> Seq<u8> {
    payload.take(first_index(payload, NUL) as int)
}

/// The entries of a directory with the given payload; `None` where a line
/// that is not empty holds no entry.
pub open spec fn parse_listing(payload: Seq<u8>) -> Option<Seq<(Seq<u8>, u32)>> {
    parse_lines(tokens(content(payload), NEWLINE))
}

/// An entry as text, without its `\n`.
pub open spec fn entry_text(entry: (Seq<u8>, u32)) -> Seq<u8> {
    decimal(entry.1 as nat) + seq![COLON] + entry.0
}

/// The lines of the entries `list`, in their order.
pub open spec fn lines_of(list: Seq<(Seq<u8>, u32)>) -> Seq<u8>
    decreases list.len(),
{
    if list.len() == 0 {
        Seq::empty()
    } else {
        lines_of(list.drop_last()) + entry_text(list.last()) + seq![NEWLINE]
    }
}

/// The payload of a directory with the entries `list`.
pub open spec fn payload_of(list: Seq<(Seq<u8>, u32)>) -> Seq<u8> {
    lines_of(list) + seq![NUL]
}

/// An entry that a directory can hold reads back from its text.
pub proof fn lemma_entry_round_trip(entry: (Seq<u8>, u32))
    ensures
        entry_text(entry).len() > 0,
        parse_line(entry_text(entry)) == Some(entry),
        storable(entry.0) ==> storable(entry_text(entry)),
{
    let d = decimal(entry.1 as nat);
    let t = entry_text(entry);
    lemma_decimal(entry.1 as nat);
    lemma_decimal_round_trip(entry.1);
    assert forall|j: int| 0 <= j < d.len() implies t[j] != COLON by {
        assert(t[j] == d[j]);
    }
    assert(is_first_index(t, COLON, d.len() as int));
    lemma_first_index(t, COLON);
    assert(t.take(d.len() as int) =~= d);
    assert(t.skip(d.len() as int + 1) =~= entry.0);
    if storable(entry.0) {
        assert forall|j: int| 0 <= j < t.len() implies t[j] != NEWLINE && t[j] != NUL by {
            if j < d.len() {
                assert(t[j] == d[j]);
            } else if j > d.len() {
                assert(entry.0.contains(entry.0[j - d.len() - 1]));
            }
        }
    }
}

/// The text of a listing holds no `\0`, and its lines are the texts of the
/// entries.
pub proof fn lemma_lines_of(list: Seq<(Seq<u8>, u32)>)
    requires
        all_storable(list),
    ensures
        !lines_of(list).contains(NUL),
        lines_of(list).len() == 0 || lines_of(list).last() == NEWLINE,
        parse_lines(tokens(lines_of(list), NEWLINE)) == Some(list),
    decreases list.len(),
{
    if list.len() == 0 {
        assert(parse_lines(tokens(lines_of(list), NEWLINE)) == Some(list)) by {
            assert(list =~= Seq::empty());
        }
    } else {
        let head = list.drop_last();
        let e = list.last();
        let t = entry_text(e);
        lemma_lines_of(head);
        lemma_entry_round_trip(e);
        assert(storable(e.0));
        let a = lines_of(head);
        let b = t + seq![NEWLINE];
        assert(lines_of(list) =~= a + b);
        lemma_tokens_concat(a, b, NEWLINE);
        lemma_tokens_single(t, NEWLINE);
        let ts = tokens(a + b, NEWLINE);
        assert(ts =~= tokens(a, NEWLINE).push(t));
        assert(ts.drop_last() =~= tokens(a, NEWLINE));
        assert(ts.last() == t);
        assert(parse_lines(ts) == Some(head.push(e)));
        assert(head.push(e) =~= list);
        assert forall|j: int| 0 <= j < (a + b).len() implies (a + b)[j] != NUL by {
            if j < a.len() {
                assert(a.contains(a[j]));
            } else if j < a.len() + t.len() {
                assert(t.contains(t[j - a.len()]));
            }
        }
    }
}

/// A directory reads back from its payload, whatever follows the payload:
/// parsing the serialized entries gives the entries.
pub proof fn lemma_listing_round_trip(list: Seq<(Seq<u8>, u32)>, tail: Seq<u8>)
    requires
        all_storable(list),
    ensures
        parse_listing(payload_of(list) + tail) == Some(list),
{
    let text = lines_of(list);
    let p = payload_of(list) + tail;
    lemma_lines_of(list);
    assert forall|j: int| 0 <= j < text.len() implies p[j] != NUL by {
        assert(text.contains(text[j]));
    }
    assert(is_first_index(p, NUL, text.len() as int));
    lemma_first_index(p, NUL);
    assert(content(p) =~= text);
}

/// Every name that was read from a payload can be stored again.
pub proof fn lemma_parsed_storable(payload: Seq<u8>)
    requires
        parse_listing(payload) is Some,
    ensures
        all_storable(parse_listing(payload).unwrap()),
{
    let c = content(payload);
    lemma_first_index(payload, NUL);
    assert(!c.contains(NUL)) by {
        if c.contains(NUL) {
            let j = choose|j: int| 0 <= j < c.len() && c[j] == NUL;
            assert(payload[j] == NUL);
        }
    }
    lemma_tokens(c, NEWLINE);
    lemma_parsed_lines_storable(tokens(c, NEWLINE));
}

/// Names read from lines without `\n` and `\0` hold neither.
pub proof fn lemma_parsed_lines_storable(lines: Seq<Seq<u8>>)
    requires
        parse_lines(lines) is Some,
        forall|k: int| 0 <= k < lines.len() ==> storable(#[trigger] lines[k]),
    ensures
        parse_lines(lines).unwrap().len() == lines.len(),
        all_storable(parse_lines(lines).unwrap()),
    decreases lines.len(),
{
    if lines.len() > 0 {
        lemma_parsed_lines_storable(lines.drop_last());
        let line = lines.last();
        let c = first_index(line, COLON) as int;
        let name = line.skip(c + 1);
        assert(storable(line));
        assert(storable(name)) by {
            if name.contains(NEWLINE) {
                let j = choose|j: int| 0 <= j < name.len() && name[j] == NEWLINE;
                assert(line[j + c + 1] == NEWLINE);
            }
            if name.contains(NUL) {
                let j = choose|j: int| 0 <= j < name.len() && name[j] == NUL;
                assert(line[j + c + 1] == NUL);
            }
        }
    }
}

/// Entries after position `k` that do not carry `name` do not change what
/// `name` maps to.
pub proof fn lemma_mapping_suffix(list: Seq<(Seq<u8>, u32)>, k: int, name: Seq<u8>)
    requires
        0 <= k <= list.len(),
        forall|j: int| k <= j < list.len() ==> (#[trigger] list[j]).0 != name,
    ensures
        mapping(list).contains_key(name) == mapping(list.take(k)).contains_key(name),
        mapping(list).contains_key(name) ==> mapping(list)[name] == mapping(list.take(k))[name],
    decreases list.len() - k,
{
    if k < list.len() {
        let head = list.drop_last();
        lemma_mapping_suffix(head, k, name);
        assert(head.take(k) =~= list.take(k));
    } else {
        assert(list.take(k) =~= list);
    }
}

/// The entries of one directory, in the order in which they stand in its
/// payload.
pub struct Directory {
    names: Vec<Vec<u8>>,
    inums: Vec<u32>,
}

impl View for Directory {
    type V = Map<Seq<u8>, u32>;

    /// The inumber that each name of the directory maps to.
    open spec fn view(&self) -> Map<Seq<u8>, u32> {
        mapping(self.list())
    }
}

impl Directory {
    /// The entries in their order, each a name and its inumber.
    pub closed spec fn list(&self) -> Seq<(Seq<u8>, u32)> {
        Seq::new(self.names@.len(), |i: int| (self.names@[i]@, self.inums@[i]))
    }

    /// The directory has an inumber for every name, and can store each name.
    pub closed spec fn wf(&self) -> bool {
        &&& self.names@.len() == self.inums@.len()
        &&& all_storable(self.list())
    }

    /// A directory without entries.
    pub fn new() -> (dir: Self)
        ensures
            dir.wf(),
            dir.list() == Seq::<(Seq<u8>, u32)>::empty(),
            dir@ == Map::<Seq<u8>, u32>::empty(),
    {
        let dir = Directory { names: Vec::new(), inums: Vec::new() };
        assert(dir.list() =~= Seq::<(Seq<u8>, u32)>::empty());
        dir
    }

    /// The number of entries.
    pub fn len(&self) -> (n: usize)
        ensures
            n == self.list().len(),
    {
        self.names.len()
    }

    /// The inumber that `name` maps to, if the directory has the name.
    pub fn get(&self, name: &[u8]) -> (inum: Option<u32>)
        requires
            self.wf(),
        ensures
            match inum {
                Some(i) => self@.contains_key(name@) && self@[name@] == i,
                None => !self@.contains_key(name@),
            },
    {
        let mut i: usize = self.names.len();
        while i > 0
            invariant
                self.wf(),
                i <= self.names@.len(),
                forall|j: int| i <= j < self.list().len() ==> (#[trigger] self.list()[j]).0 != name@,
            decreases i,
        {
            i -= 1;
            if bytes_eq(self.names[i].as_slice(), name) {
                proof {
                    lemma_mapping_suffix(self.list(), i + 1, name@);
                    let prefix = self.list().take(i + 1);
                    assert(prefix.last() == self.list()[i as int]);
                }
                return Some(self.inums[i]);
            }
        }
        proof {
            lemma_mapping_suffix(self.list(), 0, name@);
            assert(self.list().take(0) =~= Seq::<(Seq<u8>, u32)>::empty());
        }
        None
    }

    /// Adds the entry `name` to `inum`. It takes the place of an entry with
    /// the same name.
    pub fn insert(&mut self, name: Vec<u8>, inum: u32)
        requires
            old(self).wf(),
            storable(name@),
        ensures
            final(self).wf(),
            final(self).list() == old(self).list().push((name@, inum)),
            final(self)@ == old(self)@.insert(name@, inum),
    {
        self.names.push(name);
        self.inums.push(inum);
        proof {
            let list = self.list();
            assert(list =~= old(self).list().push((name@, inum)));
            assert(list.drop_last() =~= old(self).list());
        }
    }

    /// Reads a directory from its payload. Fails where a line of the payload
    /// that is not empty holds no entry.
    pub fn parse(payload: &[u8]) -> (dir: Option<Self>)
        ensures
            match dir {
                Some(d) => d.wf() && parse_listing(payload@) == Some(d.list()),
                None => parse_listing(payload@) is None,
            },
    {
        let end = find(payload, 0, NUL);
        assert(payload@.skip(0) =~= payload@);
        let text = vstd::slice::slice_subrange(payload, 0, end);
        assert(text@ =~= content(payload@));
        let lines = tokenize(text, NEWLINE);
        let ghost all = tokens(content(payload@), NEWLINE);
        let mut dir = Directory { names: Vec::new(), inums: Vec::new() };
        let mut k: usize = 0;
        assert(dir.list() =~= Seq::<(Seq<u8>, u32)>::empty());
        assert(all.take(0) =~= Seq::<Seq<u8>>::empty());
        while k < lines.len()
            invariant
                k <= lines@.len(),
                views(lines@) == all,
                all == tokens(content(payload@), NEWLINE),
                dir.names@.len() == dir.inums@.len(),
                parse_lines(all.take(k as int)) == Some(dir.list()),
            decreases lines@.len() - k,
        {
            let line = lines[k].as_slice();
            assert(line@ == all[k as int]);
            assert(all.take(k + 1).drop_last() =~= all.take(k as int));
            assert(all.take(k + 1).last() == line@);
            let colon = find(line, 0, COLON);
            assert(line@.skip(0) =~= line@);
            let ghost before = dir.list();
            if colon >= line.len() {
                proof {
                    Self::lemma_parse_lines_prefix(all, k + 1);
                }
                return None;
            }
            match read_decimal(vstd::slice::slice_subrange(line, 0, colon)) {
                Some(inum) => {
                    let name = copy_range(line, colon + 1, line.len());
                    dir.names.push(name);
                    dir.inums.push(inum);
                    assert(line@.subrange(0, colon as int) =~= line@.take(colon as int));
                    assert(name@ =~= line@.skip(colon + 1));
                    assert(dir.list() =~= before.push((name@, inum)));
                },
                None => {
                    proof {
                        assert(line@.subrange(0, colon as int) =~= line@.take(colon as int));
                        Self::lemma_parse_lines_prefix(all, k + 1);
                    }
                    return None;
                },
            }
            k += 1;
        }
        proof {
            assert(all.take(k as int) =~= all);
            lemma_parsed_storable(payload@);
        }
        Some(dir)
    }

    /// The payload of the directory: its lines, then `\0`.
    pub fn serialize(&self) -> (payload: Vec<u8>)
        requires
            self.wf(),
        ensures
            payload@ == payload_of(self.list()),
    {
        let mut payload: Vec<u8> = Vec::new();
        let mut k: usize = 0;
        assert(self.list().take(0) =~= Seq::<(Seq<u8>, u32)>::empty());
        while k < self.names.len()
            invariant
                self.wf(),
                k <= self.names@.len(),
                payload@ == lines_of(self.list().take(k as int)),
            decreases self.names@.len() - k,
        {
            let ghost before = payload@;
            push_decimal(&mut payload, self.inums[k]);
            payload.push(COLON);
            let name = &self.names[k];
            let mut j: usize = 0;
            let ghost head = payload@;
            while j < name.len()
                invariant
                    j <= name@.len(),
                    payload@ == head + name@.take(j as int),
                decreases name@.len() - j,
            {
                payload.push(name[j]);
                j += 1;
                assert(payload@ =~= head + name@.take(j as int));
            }
            payload.push(NEWLINE);
            k += 1;
            proof {
                let taken = self.list().take(k as int);
                assert(taken.drop_last() =~= self.list().take(k - 1));
                assert(taken.last() == (name@, self.inums@[k - 1]));
                assert(name@.take(name@.len() as int) =~= name@);
                assert(payload@ =~= before + entry_text(taken.last()) + seq![NEWLINE]);
            }
        }
        assert(self.list().take(k as int) =~= self.list());
        payload.push(NUL);
        payload
    }

    /// Lines are read in order: where a prefix of them fails, all of them
    /// fail.
    proof fn lemma_parse_lines_prefix(lines: Seq<Seq<u8>>, k: int)
        requires
            0 <= k <= lines.len(),
            parse_lines(lines.take(k)) is None,
        ensures
            parse_lines(lines) is None,
        decreases lines.len() - k,
    {
        if k < lines.len() {
            assert(lines.drop_last().take(k) =~= lines.take(k));
            Self::lemma_parse_lines_prefix(lines.drop_last(), k);
        } else {
            assert(lines.take(k) =~= lines);
        }
    }
}

/// Whether a path starts at the root.
pub open spec fn is_absolute(path: Seq<u8>) -> bool {
    path.len() > 0 && path[0] == SLASH
}

/// Whether `name` is `.`, which names the directory it stands in.
pub open spec fn is_dot(name: Seq<u8>) -> bool {
    name.len() == 1 && name[0] == DOT
}

/// The names among `names` that are not `.`, in their order.
pub open spec fn without_dots(names: Seq<Seq<u8>>) -> Seq<Seq<u8>>
    decreases names.len(),
{
    if names.len() == 0 {
        Seq::empty()
    } else if is_dot(names.last()) {
        without_dots(names.drop_last())
    } else {
        without_dots(names.drop_last()).push(names.last())
    }
}

/// The components of an absolute path: the pieces between `/` after the
/// leading one, without the empty ones and without `.`.
pub open spec fn components(path: Seq<u8>) -> Seq<Seq<u8>> {
    without_dots(tokens(path.skip(1), SLASH))
}

/// Whether `name` may stand in a path: it holds none of `:`, `\n`, `\0`.
pub open spec fn permitted(name: Seq<u8>) -> bool {
    !name.contains(COLON) && storable(name)
}

/// The components of `path`, where `path` is absolute and each component is
/// permitted.
pub open spec fn parse_path_spec(path: Seq<u8>) -> Option<Seq<Seq<u8>>> {
    if is_absolute(path) && forall|k: int|
        0 <= k < components(path).len() ==> permitted(#[trigger] components(path)[k]) {
        Some(components(path))
    } else {
        None
    }
}

/// Whether no byte of `name` is `:`, `\n` or `\0`.
pub fn is_permitted(name: &[u8]) -> (ok: bool)
    ensures
        ok == permitted(name@),
{
    let mut i: usize = 0;
    while i < name.len()
        invariant
            i <= name@.len(),
            forall|j: int| 0 <= j < i ==> name@[j] != COLON && name@[j] != NEWLINE && name@[j] != NUL,
        decreases name@.len() - i,
    {
        let b = name[i];
        if b == COLON || b == NEWLINE || b == NUL {
            assert(name@.contains(name@[i as int]));
            return false;
        }
        i += 1;
    }
    true
}

/// Splits a path into its components. Fails where the path does not start
/// at the root or a component holds a byte that no name may hold.
pub fn parse_path(path: &[u8]) -> (parts: Option<Vec<Vec<u8>>>)
    ensures
        match parts {
            Some(v) => parse_path_spec(path@) == Some(views(v@)),
            None => parse_path_spec(path@) is None,
        },
{
    if path.len() == 0 || path[0] != SLASH {
        return None;
    }
    let pieces = tokenize(vstd::slice::slice_subrange(path, 1, path.len()), SLASH);
    let ghost all = tokens(path@.skip(1), SLASH);
    assert(path@.subrange(1, path@.len() as int) =~= path@.skip(1));
    let mut parts: Vec<Vec<u8>> = Vec::new();
    let mut k: usize = 0;
    assert(all.take(0) =~= Seq::<Seq<u8>>::empty());
    assert(views(parts@) =~= Seq::<Seq<u8>>::empty());
    while k < pieces.len()
        invariant
            k <= pieces@.len(),
            is_absolute(path@),
            views(pieces@) == all,
            all == tokens(path@.skip(1), SLASH),
            views(parts@) == without_dots(all.take(k as int)),
            forall|j: int| 0 <= j < parts@.len() ==> permitted(#[trigger] views(parts@)[j]),
        decreases pieces@.len() - k,
    {
        let piece = &pieces[k];
        assert(piece@ == all[k as int]);
        assert(all.take(k + 1).drop_last() =~= all.take(k as int));
        assert(all.take(k + 1).last() == piece@);
        let ghost before = views(parts@);
        if !(piece.len() == 1 && piece[0] == DOT) {
            if !is_permitted(piece.as_slice()) {
                proof {
                    lemma_without_dots_keeps(all, k as int);
                }
                return None;
            }
            parts.push(copy_range(piece.as_slice(), 0, piece.len()));
            assert(piece@.subrange(0, piece@.len() as int) =~= piece@);
            assert(views(parts@) =~= before.push(piece@));
        }
        k += 1;
    }
    assert(all.take(k as int) =~= all);
    Some(parts)
}

/// A name that is not `.` stays among the names.
pub proof fn lemma_without_dots_keeps(names: Seq<Seq<u8>>, k: int)
    requires
        0 <= k < names.len(),
        !is_dot(names[k]),
    ensures
        without_dots(names).contains(names[k]),
    decreases names.len(),
{
    let w = without_dots(names);
    if k == names.len() - 1 {
        assert(w.last() == names[k]);
    } else {
        lemma_without_dots_keeps(names.drop_last(), k);
        let inner = without_dots(names.drop_last());
        let j = choose|j: int| 0 <= j < inner.len() && inner[j] == names[k];
        assert(w[j] == names[k]);
    }
}

} // verus!
