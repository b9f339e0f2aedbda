//! Names for numeric user and group ids.
//!
//! The names come from two text tables in the format of the passwd and group
//! files: one entry per line, fields separated by colons, the name first and
//! the id third. The tables are read once; after that an [`IdentityTable`]
//! never changes, so it can be shared by any number of decoders.

use std::collections::HashMap;
use vstd::prelude::*;

verus! {

/// The fields of a line: the pieces between its colons. A line without a
/// colon is one field, and two colons in a row enclose an empty field.
pub open spec fn fields(line: Seq<char>) -> Seq<Seq<char>>
    decreases line.len(),
{
    if line.len() == 0 {
        seq![Seq::empty()]
    } else {
        let before = fields(line.drop_last());
        if line.last() == ':' {
            before.push(Seq::empty())
        } else {
            before.update(before.len() - 1, before.last().push(line.last()))
        }
    }
}

/// The fields of a line put together again, with a colon between each two.
pub open spec fn joined(fields: Seq<Seq<char>>) -> Seq<char>
    decreases fields.len(),
{
    if fields.len() == 0 {
        Seq::empty()
    } else if fields.len() == 1 {
        fields[0]
    } else {
        joined(fields.drop_last()) + seq![':'] + fields.last()
    }
}

/// Splitting a line loses nothing and cuts at every colon: a line has at
/// least one field, no field holds a colon, and the fields joined by colons
/// are the line.
pub proof fn lemma_fields_rejoin(line: Seq<char>)
    ensures
        fields(line).len() >= 1,
        forall|j: int, k: int|
            0 <= j < fields(line).len() && 0 <= k < fields(line)[j].len() ==> (
            #[trigger] fields(line)[j][k]) != ':',
        joined(fields(line)) == line,
    decreases line.len(),
{
    let all = fields(line);
    if line.len() == 0 {
        assert(joined(all) =~= line);
    } else {
        let shorter = line.drop_last();
        let before = fields(shorter);
        let c = line.last();
        lemma_fields_rejoin(shorter);
        assert(shorter.push(c) =~= line);
        if c == ':' {
            assert(all.drop_last() =~= before);
            assert(joined(all) =~= line);
        } else {
            let last = before.len() - 1;
            assert(all.len() == before.len());
            assert(all.last() == before.last().push(c));
            if before.len() == 1 {
                assert(joined(all) =~= line);
            } else {
                assert(all.drop_last() =~= before.drop_last());
                assert(joined(all) =~= joined(before).push(c));
            }
            assert forall|j: int, k: int|
                0 <= j < all.len() && 0 <= k < all[j].len() implies (#[trigger] all[j][k])
                != ':' by {
                if j < last {
                    assert(all[j] == before[j]);
                    assert(before[j][k] != ':');
                } else if k < before[last].len() {
                    assert(all[j][k] == before[last][k]);
                    assert(before[last][k] != ':');
                }
            }
        }
    }
}

/// Whether every character is a decimal digit.
pub open spec fn all_digits(text: Seq<char>) -> bool {
    forall|i: int| 0 <= i < text.len() ==> '0' <= #[trigger] text[i] <= '9'
}

/// The number that a string of decimal digits denotes.
pub open spec fn decimal(digits: Seq<char>) -> nat
    decreases digits.len(),
{
    if digits.len() == 0 {
        0
    } else {
        decimal(digits.drop_last()) * 10 + (digits.last() as nat - '0' as nat) as nat
    }
}

/// The id that a field holds: a non-empty string of decimal digits whose
/// value fits in 32 bits. Anything else is no id.
pub open spec fn parse_id(field: Seq<char>) -> Option<u32> {
    if field.len() > 0 && all_digits(field) && decimal(field) <= u32::MAX {
        Some(decimal(field) as u32)
    } else {
        None
    }
}

/// The two tables that names are read from.
#[derive(Clone, Copy, Debug, PartialEq, Eq, Structural)]
pub enum Source {
    /// Lines of the form `name:password:uid:gid:...`.
    Passwd,
    /// Lines of the form `name:password:gid:...`.
    Group,
}

/// The id and the name that a line of a table gives, or `None` for a
/// malformed line.
///
/// A line is well formed when it has at least the fields up to the last id
/// (four in a passwd line, three in a group line), its name is not empty, and
/// each of its id fields holds an id. The id it gives is the one in the third
/// field.
pub open spec fn parse_line(line: Seq<char>, source: Source) -> Option<(u32, Seq<char>)> {
    let f = fields(line);
    let complete = match source {
        Source::Passwd => f.len() >= 4 && parse_id(f[3]) is Some,
        Source::Group => f.len() >= 3,
    };
    if complete && f[0].len() > 0 && parse_id(f[2]) is Some {
        Some((parse_id(f[2]).unwrap(), f[0]))
    } else {
        None
    }
}

/// The names that the lines of a table give to ids. Malformed lines count
/// for nothing, and where several lines name the same id, the first of them
/// decides.
pub open spec fn names_of(lines: Seq<Seq<char>>, source: Source) -> Map<u32, Seq<char>>
    decreases lines.len(),
{
    if lines.len() == 0 {
        Map::empty()
    } else {
        let earlier = names_of(lines.drop_last(), source);
        match parse_line(lines.last(), source) {
            Some((id, name)) => if earlier.contains_key(id) {
                earlier
            } else {
                earlier.insert(id, name)
            },
            None => earlier,
        }
    }
}

/// The character sequences of a list of lines.
pub open spec fn line_models(lines: Seq<String>) -> Seq<Seq<char>> {
    Seq::new(lines.len(), |i: int| lines[i]@)
}

/// The number denoted by the first `k` digits is at most the number denoted
/// by all of them.
proof fn lemma_decimal_prefix(digits: Seq<char>, k: int)
    requires
        0 <= k <= digits.len(),
        all_digits(digits),
    ensures
        decimal(digits.take(k)) <= decimal(digits),
    decreases digits.len() - k,
{
    if k == digits.len() {
        assert(digits.take(k) =~= digits);
    } else {
        let longer = digits.take(k + 1);
        assert(longer.drop_last() =~= digits.take(k));
        assert(longer.last() == digits[k]);
        lemma_decimal_prefix(digits, k + 1);
    }
}

/// Whether a line is well formed and gives the id `id`.
pub open spec fn gives_id(line: Seq<char>, source: Source, id: u32) -> bool {
    parse_line(line, source) matches Some((found, _)) && found == id
}

/// The table knows exactly the ids that some well-formed line gives.
pub proof fn lemma_known_ids(lines: Seq<Seq<char>>, source: Source, id: u32)
    ensures
        names_of(lines, source).contains_key(id) <==> exists|i: int|
            0 <= i < lines.len() && #[trigger] gives_id(lines[i], source, id),
    decreases lines.len(),
{
    if lines.len() > 0 {
        let earlier = lines.drop_last();
        lemma_known_ids(earlier, source, id);
        let last = lines.len() - 1;
        if names_of(lines, source).contains_key(id) {
            if names_of(earlier, source).contains_key(id) {
                let i = choose|i: int|
                    0 <= i < earlier.len() && #[trigger] gives_id(earlier[i], source, id);
                assert(earlier[i] == lines[i]);
                assert(gives_id(lines[i], source, id));
            } else {
                assert(gives_id(lines[last], source, id));
            }
        }
        if exists|i: int| 0 <= i < lines.len() && #[trigger] gives_id(lines[i], source, id) {
            let i = choose|i: int| 0 <= i < lines.len() && #[trigger] gives_id(lines[i], source, id);
            if i < last {
                assert(earlier[i] == lines[i]);
                assert(gives_id(earlier[i], source, id));
            }
        }
    }
}

/// Where several lines give the same id, the first of them decides: the name
/// of an id is the name on the first well-formed line that gives it.
pub proof fn lemma_first_line_wins(lines: Seq<Seq<char>>, source: Source, i: int, id: u32)
    requires
        0 <= i < lines.len(),
        gives_id(lines[i], source, id),
        forall|j: int| 0 <= j < i ==> !#[trigger] gives_id(lines[j], source, id),
    ensures
        names_of(lines, source).contains_key(id),
        names_of(lines, source)[id] == parse_line(lines[i], source).unwrap().1,
    decreases lines.len(),
{
    let earlier = lines.drop_last();
    if i == lines.len() - 1 {
        lemma_known_ids(earlier, source, id);
        if names_of(earlier, source).contains_key(id) {
            let j = choose|j: int|
                0 <= j < earlier.len() && #[trigger] gives_id(earlier[j], source, id);
            assert(earlier[j] == lines[j]);
            assert(gives_id(lines[j], source, id));
        }
    } else {
        assert(earlier[i] == lines[i]);
        assert forall|j: int| 0 <= j < i implies !#[trigger] gives_id(earlier[j], source, id) by {
            assert(earlier[j] == lines[j]);
            assert(!gives_id(lines[j], source, id));
        }
        lemma_first_line_wins(earlier, source, i, id);
    }
}

/// A table read from a single well-formed line knows the id of that line,
/// under the name of that line, and no other id. A table read from a single
/// malformed line knows nothing.
pub proof fn lemma_single_line(line: Seq<char>, source: Source)
    ensures
        names_of(seq![line], source) == match parse_line(line, source) {
            Some((id, name)) => Map::<u32, Seq<char>>::empty().insert(id, name),
            None => Map::<u32, Seq<char>>::empty(),
        },
{
    let lines = seq![line];
    assert(lines.drop_last() =~= Seq::empty());
    assert(names_of(Seq::<Seq<char>>::empty(), source) == Map::<u32, Seq<char>>::empty());
}

/// Where the fields of a line begin and end: for each field, the index of
/// its first character and the index behind its last.
fn field_bounds(line: &str) -> (bounds: Vec<(usize, usize)>)
    ensures
        bounds@.len() == fields(line@).len(),
        forall|j: int|
            0 <= j < bounds@.len() ==> {
                &&& (#[trigger] bounds@[j]).0 <= bounds@[j].1 <= line@.len()
                &&& line@.subrange(bounds@[j].0 as int, bounds@[j].1 as int) == fields(line@)[j]
            },
{
    let n: usize = line.unicode_len();
    let mut bounds: Vec<(usize, usize)> = Vec::new();
    let mut start: usize = 0;
    let mut i: usize = 0;
    assert(line@.take(0) =~= Seq::empty());
    assert(line@.subrange(0, 0) =~= Seq::empty());
    while i < n
        invariant
            n == line@.len(),
            start <= i <= n,
            fields(line@.take(i as int)).len() == bounds@.len() + 1,
            fields(line@.take(i as int)).last() == line@.subrange(start as int, i as int),
            forall|j: int|
                0 <= j < bounds@.len() ==> {
                    &&& (#[trigger] bounds@[j]).0 <= bounds@[j].1 <= i
                    &&& line@.subrange(bounds@[j].0 as int, bounds@[j].1 as int) == fields(
                        line@.take(i as int),
                    )[j]
                },
        decreases n - i,
    {
        let c: char = line.get_char(i);
        proof {
            let shorter = line@.take(i as int);
            let longer = line@.take(i + 1);
            assert(longer.drop_last() =~= shorter);
            assert(longer.last() == c);
            if c != ':' {
                assert(line@.subrange(start as int, i + 1) =~= line@.subrange(
                    start as int,
                    i as int,
                ).push(c));
            } else {
                assert(line@.subrange(i + 1, i + 1) =~= Seq::empty());
            }
        }
        if c == ':' {
            bounds.push((start, i));
            start = i + 1;
        }
        i = i + 1;
    }
    assert(line@.take(n as int) =~= line@);
    bounds.push((start, n));
    bounds
}

/// Reads the id that the characters `from..to` of a line hold.
fn id_at(line: &str, from: usize, to: usize) -> (id: Option<u32>)
    requires
        from <= to <= line@.len(),
    ensures
        id == parse_id(line@.subrange(from as int, to as int)),
{
    let ghost field = line@.subrange(from as int, to as int);
    if from == to {
        return None;
    }
    let mut value: u64 = 0;
    let mut i: usize = from;
    assert(field.take(0) =~= Seq::empty());
    while i < to
        invariant
            from <= i <= to <= line@.len(),
            field == line@.subrange(from as int, to as int),
            all_digits(field.take(i - from)),
            value == decimal(field.take(i - from)),
            value <= u32::MAX,
        decreases to - i,
    {
        let c: char = line.get_char(i);
        let ghost longer = field.take(i - from + 1);
        proof {
            assert(longer.drop_last() =~= field.take(i - from));
            assert(longer.last() == c);
            assert(field[i - from] == c);
        }
        if c < '0' || c > '9' {
            return None;
        }
        let digit: u64 = (c as u32 - '0' as u32) as u64;
        value = value * 10 + digit;
        proof {
            assert(all_digits(longer)) by {
                assert forall|j: int| 0 <= j < longer.len() implies '0' <= #[trigger] longer[j]
                    <= '9' by {
                    if j < i - from {
                        assert(longer[j] == field.take(i - from)[j]);
                    }
                }
            }
            assert(value == decimal(longer));
        }
        if value > u32::MAX as u64 {
            proof {
                if all_digits(field) {
                    lemma_decimal_prefix(field, i - from + 1);
                }
            }
            return None;
        }
        i = i + 1;
    }
    assert(field.take(to - from) =~= field);
    Some(value as u32)
}

/// Reads one line of a table.
fn read_line(line: &str, source: Source) -> (entry: Option<(u32, String)>)
    ensures
        match parse_line(line@, source) {
            Some((id, name)) => entry matches Some((i, n)) && i == id && n@ == name,
            None => entry is None,
        },
{
    let bounds = field_bounds(line);
    let needed: usize = match source {
        Source::Passwd => 4,
        Source::Group => 3,
    };
    if bounds.len() < needed {
        return None;
    }
    let (name_from, name_to) = bounds[0];
    let (id_from, id_to) = bounds[2];
    if name_from == name_to {
        return None;
    }
    if let Source::Passwd = source {
        let (gid_from, gid_to) = bounds[3];
        if id_at(line, gid_from, gid_to).is_none() {
            return None;
        }
    }
    match id_at(line, id_from, id_to) {
        Some(id) => {
            let name = line.substring_char(name_from, name_to).to_owned();
            Some((id, name))
        },
        None => None,
    }
}

/// The names of the users and groups of a system, by numeric id.
pub struct IdentityTable {
    users: HashMap<u32, String>,
    groups: HashMap<u32, String>,
}

/// The character sequences of the names in a table.
pub open spec fn name_models(names: Map<u32, String>) -> Map<u32, Seq<char>> {
    names.map_values(|name: String| name@)
}

/// Reads a table from its lines.
fn read_table(lines: &Vec<String>, source: Source) -> (names: HashMap<u32, String>)
    ensures
        name_models(names@) == names_of(line_models(lines@), source),
{
    let mut names: HashMap<u32, String> = HashMap::new();
    let ghost all = line_models(lines@);
    let mut i: usize = 0;
    assert(all.take(0) =~= Seq::empty());
    assert(name_models(names@) =~= Map::empty());
    while i < lines.len()
        invariant
            i <= lines@.len(),
            all == line_models(lines@),
            name_models(names@) == names_of(all.take(i as int), source),
        decreases lines@.len() - i,
    {
        let ghost before = names@;
        proof {
            assert(all.take(i + 1).drop_last() =~= all.take(i as int));
            assert(all.take(i + 1).last() == lines@[i as int]@);
        }
        match read_line(lines[i].as_str(), source) {
            Some((id, name)) => {
                if !names.contains_key(&id) {
                    let ghost model = name@;
                    names.insert(id, name);
                    assert(name_models(names@) =~= name_models(before).insert(id, model));
                }
            },
            None => {},
        }
        i = i + 1;
    }
    assert(all.take(lines@.len() as int) =~= all);
    names
}

impl IdentityTable {
    /// The name of each known user id.
    pub closed spec fn users(&self) -> Map<u32, Seq<char>> {
        name_models(self.users@)
    }

    /// The name of each known group id.
    pub closed spec fn groups(&self) -> Map<u32, Seq<char>> {
        name_models(self.groups@)
    }

    /// A table that knows no id.
    pub fn empty() -> (table: IdentityTable)
        ensures
            table.users() == Map::<u32, Seq<char>>::empty(),
            table.groups() == Map::<u32, Seq<char>>::empty(),
    {
        let table = IdentityTable { users: HashMap::new(), groups: HashMap::new() };
        assert(name_models(table.users@) =~= Map::empty());
        assert(name_models(table.groups@) =~= Map::empty());
        table
    }

    /// Builds the table from the lines of a passwd file and of a group file.
    ///
    /// Malformed lines are skipped one by one; they never fail the load.
    pub fn load(passwd_lines: &Vec<String>, group_lines: &Vec<String>) -> (table: IdentityTable)
        ensures
            table.users() == names_of(line_models(passwd_lines@), Source::Passwd),
            table.groups() == names_of(line_models(group_lines@), Source::Group),
    {
        IdentityTable {
            users: read_table(passwd_lines, Source::Passwd),
            groups: read_table(group_lines, Source::Group),
        }
    }

    /// The name of the user with the given id, if the table knows it.
    pub fn resolve_uid(&self, uid: u32) -> (name: Option<&str>)
        ensures
            match name {
                Some(name) => self.users().contains_key(uid) && name@ == self.users()[uid],
                None => !self.users().contains_key(uid),
            },
    {
        match self.users.get(&uid) {
            Some(name) => Some(name.as_str()),
            None => None,
        }
    }

    /// The name of the group with the given id, if the table knows it.
    pub fn resolve_gid(&self, gid: u32) -> (name: Option<&str>)
        ensures
            match name {
                Some(name) => self.groups().contains_key(gid) && name@ == self.groups()[gid],
                None => !self.groups().contains_key(gid),
            },
    {
        match self.groups.get(&gid) {
            Some(name) => Some(name.as_str()),
            None => None,
        }
    }
}

} // verus!
