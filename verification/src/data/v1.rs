//! Version 1 of the data directory: a `state.json` with the installed
//! note collections and the selected one, and one object store per
//! collection under `repos/`.

use vstd::prelude::*;
use vstd::string::StringExecFns;

use crate::ids::{id_text_value, repo_id_text, RepoId};
use crate::json::{expect_key, parse_qstring, push_quoted, quoted, scan_qstring};
use crate::text::{chars_equal, chars_of, string_from_chars};

use super::datadir::UnlockedDataDir;

verus! {

/// The schema version this module writes.
pub const VERSION: u32 = 1;

/// The collections installed in a data directory: each repository id with
/// its display name, and at most one selected repository.
pub struct State {
    pub repos: Vec<(RepoId, String)>,
    pub selected_repo: Option<RepoId>,
}

/// The state reduced to plain values.
pub ghost struct StateData {
    pub repos: Seq<(u64, Seq<char>)>,
    pub selected: Option<u64>,
}

/// The state of a directory that holds no collections yet.
pub open spec fn empty_state_data() -> StateData {
    StateData { repos: Seq::empty(), selected: None }
}

impl State {
    /// The plain values of the state.
    pub open spec fn data(&self) -> StateData {
        StateData {
            repos: Seq::new(
                self.repos@.len(),
                |i: int| (self.repos@[i].0.spec_value(), self.repos@[i].1@),
            ),
            selected: match self.selected_repo {
                None => None,
                Some(id) => Some(id.spec_value()),
            },
        }
    }

    /// Whether some entry has this repository id.
    pub open spec fn spec_has_repo(&self, v: u64) -> bool {
        exists|i: int|
            0 <= i < self.repos@.len() && (#[trigger] self.repos@[i]).0.spec_value() == v
    }

    /// Clear a selection that does not name an installed collection.
    pub fn normalize(&mut self)
        ensures
            final(self).repos@ == old(self).repos@,
            final(self).selected_repo == (match old(self).selected_repo {
                Some(id) => if old(self).spec_has_repo(id.spec_value()) {
                    Some(id)
                } else {
                    None::<RepoId>
                },
                None => None::<RepoId>,
            }),
    {
        let selected = match self.selected_repo {
            Some(id) => id,
            None => {
                return ;
            },
        };
        if !self.contains_repo(selected) {
            self.selected_repo = None;
        }
    }

    /// Whether the state lists this repository.
    pub fn contains_repo(&self, id: RepoId) -> (r: bool)
        ensures
            r == self.spec_has_repo(id.spec_value()),
    {
        let mut i: usize = 0;
        while i < self.repos.len()
            invariant
                i <= self.repos@.len(),
                forall|j: int|
                    0 <= j < i ==> (#[trigger] self.repos@[j]).0.spec_value() != id.spec_value(),
            decreases self.repos@.len() - i,
        {
            if self.repos[i].0.value() == id.value() {
                return true;
            }
            i = i + 1;
        }
        false
    }

    /// Install a collection: the entry goes at the end of the list, the
    /// selection stays.
    pub fn add_repo_entry(&mut self, id: RepoId, name: String)
        ensures
            final(self).repos@ == old(self).repos@.push((id, name)),
            final(self).selected_repo == old(self).selected_repo,
    {
        self.repos.push((id, name));
    }

    /// Drop every entry carrying this repository id; the selection stays
    /// (a dangling one is cleared by [`State::normalize`] on save).
    pub fn remove_repo_entry(&mut self, id: RepoId)
        ensures
            final(self).repos@ == remove_entries(old(self).repos@, id.spec_value()),
            final(self).selected_repo == old(self).selected_repo,
    {
        let ghost orig = self.repos@;
        let mut kept: Vec<(RepoId, String)> = Vec::new();
        let mut i: usize = 0;
        proof {
            assert(kept@ =~= remove_entries(orig.take(0), id.spec_value()));
        }
        while i < self.repos.len()
            invariant
                self.repos@ == orig,
                i <= orig.len(),
                kept@ == remove_entries(orig.take(i as int), id.spec_value()),
            decreases orig.len() - i,
        {
            proof {
                assert(orig.take(i + 1).drop_last() =~= orig.take(i as int));
                assert(orig.take(i + 1).last() == orig[i as int]);
            }
            if self.repos[i].0.value() != id.value() {
                let entry = (self.repos[i].0, self.repos[i].1.clone());
                proof {
                    assert(entry == orig[i as int]);
                }
                kept.push(entry);
            }
            i = i + 1;
        }
        proof {
            assert(orig.take(orig.len() as int) =~= orig);
        }
        self.repos = kept;
    }

    /// Rename a collection: the first entry carrying the id takes the new
    /// name; nothing changes, and false comes back, when no entry has it.
    pub fn set_repo_name(&mut self, id: RepoId, name: String) -> (r: bool)
        ensures
            final(self).selected_repo == old(self).selected_repo,
            match spec_key_match_from(old(self).repos@, id.spec_value(), 0) {
                Some(j) => r && final(self).repos@ == old(self).repos@.update(
                    j,
                    (old(self).repos@[j].0, name),
                ),
                None => !r && final(self).repos@ == old(self).repos@,
            },
    {
        let ghost orig = self.repos@;
        let mut i: usize = 0;
        while i < self.repos.len()
            invariant
                self.repos@ == orig,
                orig == old(self).repos@,
                self.selected_repo == old(self).selected_repo,
                i <= orig.len(),
                spec_key_match_from(orig, id.spec_value(), 0) == spec_key_match_from(
                    orig,
                    id.spec_value(),
                    i as int,
                ),
            decreases orig.len() - i,
        {
            if self.repos[i].0.value() == id.value() {
                proof {
                    assert(spec_key_match_from(orig, id.spec_value(), i as int) == Some(i as int));
                }
                let entry = self.repos.remove(i);
                self.repos.insert(i, (entry.0, name));
                proof {
                    assert(self.repos@ =~= orig.update(i as int, self.repos@[i as int]));
                }
                return true;
            }
            proof {
                assert(orig[i as int].0.spec_value() != id.spec_value());
                assert(spec_key_match_from(orig, id.spec_value(), i as int)
                    == spec_key_match_from(orig, id.spec_value(), i + 1));
            }
            i = i + 1;
        }
        false
    }

    /// Select a collection, or none.
    pub fn select_repo(&mut self, id: Option<RepoId>)
        ensures
            final(self).repos@ == old(self).repos@,
            final(self).selected_repo == id,
    {
        self.selected_repo = id;
    }

    /// The index of the first entry whose name is the given text.
    pub open spec fn spec_first_name_match(&self, name: Seq<char>) -> Option<int> {
        spec_name_match_from(self.repos@, name, 0)
    }

    /// Turn an identifier the user typed into a repository id: valid
    /// repository id text that names an installed collection always wins;
    /// any other text is read as a display name and the first collection
    /// carrying it is chosen.
    pub fn resolve_repo_identifier(&self, identifier: &str) -> (r: Option<RepoId>)
        ensures
            match r {
                Some(id) => (id_text_value('r', identifier@) == Some(id.spec_value())
                    && self.spec_has_repo(id.spec_value())) || ((id_text_value('r', identifier@)
                    is None || !self.spec_has_repo(id_text_value('r', identifier@)->Some_0)) && (
                self.spec_first_name_match(identifier@) matches Some(j) && self.repos@[j].0 == id)),
                None => (id_text_value('r', identifier@) is None || !self.spec_has_repo(
                    id_text_value('r', identifier@)->Some_0,
                )) && self.spec_first_name_match(identifier@) is None,
            },
    {
        let text = chars_of(identifier);
        let parsed = RepoId::from_text(&text);
        match parsed {
            Some(id) => {
                if self.contains_repo(id) {
                    return Some(id);
                }
            },
            None => {},
        }
        proof {
            assert(id_text_value('r', identifier@) is None || !self.spec_has_repo(
                id_text_value('r', identifier@)->Some_0,
            ));
        }
        let mut i: usize = 0;
        while i < self.repos.len()
            invariant
                i <= self.repos@.len(),
                text@ == identifier@,
                id_text_value('r', identifier@) is None || !self.spec_has_repo(
                    id_text_value('r', identifier@)->Some_0,
                ),
                spec_name_match_from(self.repos@, identifier@, 0) == spec_name_match_from(
                    self.repos@,
                    identifier@,
                    i as int,
                ),
            decreases self.repos@.len() - i,
        {
            let name = chars_of(self.repos[i].1.as_str());
            if chars_equal(&name, &text) {
                proof {
                    assert(spec_name_match_from(self.repos@, identifier@, i as int) == Some(
                        i as int,
                    ));
                }
                return Some(self.repos[i].0);
            }
            proof {
                assert(self.repos@[i as int].1@ != identifier@);
                assert(spec_name_match_from(self.repos@, identifier@, i as int)
                    == spec_name_match_from(self.repos@, identifier@, i + 1));
            }
            i = i + 1;
        }
        None
    }
}

/// The index at or after `from` of the first entry carrying the given
/// repository id.
pub open spec fn spec_key_match_from(rs: Seq<(RepoId, String)>, v: u64, from: int) -> Option<int>
    decreases rs.len() - from,
{
    if from < 0 || from >= rs.len() {
        None
    } else if rs[from].0.spec_value() == v {
        Some(from)
    } else {
        spec_key_match_from(rs, v, from + 1)
    }
}

/// The entries with every pair carrying the given repository id removed,
/// order preserved.
pub open spec fn remove_entries(rs: Seq<(RepoId, String)>, v: u64) -> Seq<(RepoId, String)>
    decreases rs.len(),
{
    if rs.len() == 0 {
        Seq::empty()
    } else {
        let rest = remove_entries(rs.drop_last(), v);
        if rs.last().0.spec_value() == v {
            rest
        } else {
            rest.push(rs.last())
        }
    }
}

/// The index at or after `from` of the first entry named `name`.
pub open spec fn spec_name_match_from(
    rs: Seq<(RepoId, String)>,
    name: Seq<char>,
    from: int,
) -> Option<int>
    decreases rs.len() - from,
{
    if from < 0 || from >= rs.len() {
        None
    } else if rs[from].1@ == name {
        Some(from)
    } else {
        spec_name_match_from(rs, name, from + 1)
    }
}

impl Default for State {
    /// A directory with no collections and no selection.
    fn default() -> (r: State)
        ensures
            r.data() == empty_state_data(),
            r.repos@.len() == 0,
            r.selected_repo is None,
    {
        let r = State { repos: Vec::new(), selected_repo: None };
        proof {
            assert(r.data().repos =~= empty_state_data().repos);
        }
        r
    }
}

/// The state file of a data directory.
pub fn state_file(dir: &UnlockedDataDir) -> (r: String)
    ensures
        r@ == dir.spec_path() + "/state.json"@,
{
    dir.path().clone().concat("/state.json")
}

/// The directory holding one object store per collection.
pub fn repos_dir(dir: &UnlockedDataDir) -> (r: String)
    ensures
        r@ == dir.spec_path() + "/repos"@,
{
    dir.path().clone().concat("/repos")
}

/// The object store of one collection.
pub fn repo_dir(dir: &UnlockedDataDir, id: RepoId) -> (r: String)
    ensures
        r@ == dir.spec_path() + "/repos/"@ + crate::ids::repo_id_text(id.spec_value()),
{
    let name = string_from_chars(&id.to_text());
    let r = dir.path().clone().concat("/repos/").concat(name.as_str());
    proof {
        assert(r@ =~= dir.spec_path() + "/repos/"@ + crate::ids::repo_id_text(id.spec_value()));
    }
    r
}

/// The JSON text of one repository entry.
pub open spec fn pair_json(v: u64, name: Seq<char>) -> Seq<char> {
    quoted(repo_id_text(v)) + seq![':'] + quoted(name)
}

/// The JSON text of the repository map's entries.
pub open spec fn repos_json(rs: Seq<(u64, Seq<char>)>) -> Seq<char> {
    if rs.len() == 0 {
        Seq::empty()
    } else {
        pair_json(rs[0].0, rs[0].1) + repos_tail_json(rs.drop_first())
    }
}

/// The JSON text of the repository map after its first entry.
pub open spec fn repos_tail_json(rs: Seq<(u64, Seq<char>)>) -> Seq<char>
    decreases rs.len(),
{
    if rs.len() == 0 {
        Seq::empty()
    } else {
        seq![','] + pair_json(rs[0].0, rs[0].1) + repos_tail_json(rs.drop_first())
    }
}

/// The JSON text of the selection: a repository id or null.
pub open spec fn selected_json(sel: Option<u64>) -> Seq<char> {
    match sel {
        None => seq!['n', 'u', 'l', 'l'],
        Some(v) => quoted(repo_id_text(v)),
    }
}

/// The JSON text of the whole state.
pub open spec fn state_json(d: StateData) -> Seq<char> {
    seq!['{', '"', 'r', 'e', 'p', 'o', 's', '"', ':', '{'] + repos_json(d.repos) + seq![
        '}',
        ',',
        '"',
        's',
        'e',
        'l',
        'e',
        'c',
        't',
        'e',
        'd',
        'R',
        'e',
        'p',
        'o',
        '"',
        ':',
    ] + selected_json(d.selected) + seq!['}']
}

/// Read the repository map's entries from `i` up to the closing brace.
pub open spec fn parse_repo_pairs(
    s: Seq<char>,
    i: int,
    acc: Seq<(u64, Seq<char>)>,
    first: bool,
) -> Option<(Seq<(u64, Seq<char>)>, int)>
    decreases s.len() - i,
{
    if i < 0 || i >= s.len() {
        None
    } else if s[i] == '}' {
        Some((acc, i + 1))
    } else {
        let start = if first {
            i
        } else if s[i] == ',' {
            i + 1
        } else {
            s.len() as int + 1
        };
        match parse_qstring(s, start) {
            None => None,
            Some((t, j)) => match id_text_value('r', t) {
                None => None,
                Some(v) => if j < s.len() && s[j] == ':' {
                    match parse_qstring(s, j + 1) {
                        None => None,
                        Some((name, j2)) => if i < j2 <= s.len() {
                            parse_repo_pairs(s, j2, acc.push((v, name)), false)
                        } else {
                            None
                        },
                    }
                } else {
                    None
                },
            },
        }
    }
}

/// Read the selection: the word null, or quoted repository id text.
pub open spec fn parse_selected(s: Seq<char>, i: int) -> Option<(Option<u64>, int)> {
    if 0 <= i && i + 4 <= s.len() && s.subrange(i, i + 4) == seq!['n', 'u', 'l', 'l'] {
        Some((None, i + 4))
    } else {
        match parse_qstring(s, i) {
            None => None,
            Some((t, j)) => match id_text_value('r', t) {
                None => None,
                Some(v) => Some((Some(v), j)),
            },
        }
    }
}

/// Read state JSON: an object holding exactly the keys `repos` and
/// `selectedRepo`, in this order, with no spacing between tokens — the
/// one rendering [`render_state`] produces. Anything else is not state
/// JSON here.
pub open spec fn parse_state_text(s: Seq<char>) -> Option<StateData> {
    if s.len() == 0 || s[0] != '{' {
        None
    } else {
        match expect_key(s, 1, seq!['r', 'e', 'p', 'o', 's']) {
            None => None,
            Some(i1) => if i1 < s.len() && s[i1] == '{' {
                match parse_repo_pairs(s, i1 + 1, Seq::empty(), true) {
                    None => None,
                    Some((repos, i2)) => if i2 < s.len() && s[i2] == ',' {
                        match expect_key(
                            s,
                            i2 + 1,
                            seq!['s', 'e', 'l', 'e', 'c', 't', 'e', 'd', 'R', 'e', 'p', 'o'],
                        ) {
                            None => None,
                            Some(i3) => match parse_selected(s, i3) {
                                None => None,
                                Some((sel, i4)) => if i4 + 1 == s.len() && i4 < s.len() && s[i4]
                                    == '}' {
                                    Some(StateData { repos, selected: sel })
                                } else {
                                    None
                                },
                            },
                        }
                    } else {
                        None
                    },
                }
            } else {
                None
            },
        }
    }
}

/// Repository identifier text consists of plain characters only.
proof fn lemma_repo_id_text_plain(v: u64)
    ensures
        repo_id_text(v).len() == 17,
        quoted(repo_id_text(v)) == seq!['"'] + repo_id_text(v) + seq!['"'],
        quoted(repo_id_text(v)).len() == 19,
{
    let t = repo_id_text(v);
    assert forall|i: int| 0 <= i < t.len() implies crate::json::is_plain(#[trigger] t[i]) by {
        if i == 0 {
            assert(t[0] == 'r');
        } else {
            assert(t[i] == crate::text::hex16_of(v)[i - 1]);
            let d = crate::text::hex_digit16(v, i - 1);
            assert(0 <= d < 16);
            assert(crate::json::is_plain(crate::text::hex_char_of(d)));
        }
    }
    crate::json::lemma_quoted_plain(t);
}

/// Reading the rendered tail of the repository map, then the closing
/// brace, yields the remaining entries.
proof fn lemma_state_pairs_tail(
    s: Seq<char>,
    i: int,
    acc: Seq<(u64, Seq<char>)>,
    rs: Seq<(u64, Seq<char>)>,
)
    requires
        0 <= i,
        i + repos_tail_json(rs).len() + 1 <= s.len(),
        s.subrange(i, i + repos_tail_json(rs).len() + 1) == repos_tail_json(rs) + seq!['}'],
    ensures
        parse_repo_pairs(s, i, acc, false) == Some(
            (acc + rs, i + repos_tail_json(rs).len() + 1),
        ),
    decreases rs.len(),
{
    let ct = repos_tail_json(rs);
    if rs.len() == 0 {
        assert(ct =~= Seq::<char>::empty());
        crate::json::lemma_char_at(s, i, ct + seq!['}'], 0);
        assert(s[i] == '}');
        assert(acc + rs =~= acc);
    } else {
        lemma_repo_id_text_plain(rs[0].0);
        let q0 = quoted(repo_id_text(rs[0].0));
        let qn = quoted(rs[0].1);
        let rest = repos_tail_json(rs.drop_first());
        assert(ct == seq![','] + (q0 + seq![':'] + qn) + rest);
        assert(ct + seq!['}'] =~= seq![','] + (q0 + (seq![':'] + (qn + (rest + seq!['}'])))));
        crate::json::lemma_peel(s, i, seq![','], q0 + (seq![':'] + (qn + (rest + seq!['}']))));
        crate::json::lemma_char_at(s, i, seq![','], 0);
        assert(s[i] == ',');
        assert(s[i] != '}');
        crate::json::lemma_peel(s, i + 1, q0, seq![':'] + (qn + (rest + seq!['}'])));
        crate::json::lemma_parse_quoted(s, i + 1, repo_id_text(rs[0].0));
        crate::ids::lemma_id_text_round_trip(rs[0].0);
        let j: int = i + 1 + q0.len() as int;
        crate::json::lemma_peel(s, j, seq![':'], qn + (rest + seq!['}']));
        crate::json::lemma_char_at(s, j, seq![':'], 0);
        assert(s[j] == ':');
        crate::json::lemma_peel(s, j + 1, qn, rest + seq!['}']);
        crate::json::lemma_parse_quoted(s, j + 1, rs[0].1);
        let j2: int = j + 1 + qn.len() as int;
        lemma_state_pairs_tail(s, j2, acc.push(rs[0]), rs.drop_first());
        assert(acc.push(rs[0]) + rs.drop_first() =~= acc + rs);
        assert((rs[0].0, rs[0].1) == rs[0]);
        assert(j2 + rest.len() + 1 == i + ct.len() + 1);
    }
}

/// Reading the rendered repository map, then the closing brace, yields
/// the entries.
proof fn lemma_state_pairs_first(s: Seq<char>, i: int, rs: Seq<(u64, Seq<char>)>)
    requires
        0 <= i,
        i + repos_json(rs).len() + 1 <= s.len(),
        s.subrange(i, i + repos_json(rs).len() + 1) == repos_json(rs) + seq!['}'],
    ensures
        parse_repo_pairs(s, i, Seq::empty(), true) == Some(
            (rs, i + repos_json(rs).len() + 1),
        ),
{
    let cj = repos_json(rs);
    if rs.len() == 0 {
        assert(cj =~= Seq::<char>::empty());
        crate::json::lemma_char_at(s, i, cj + seq!['}'], 0);
        assert(s[i] == '}');
        assert(Seq::<(u64, Seq<char>)>::empty() =~= rs);
    } else {
        lemma_repo_id_text_plain(rs[0].0);
        let q0 = quoted(repo_id_text(rs[0].0));
        let qn = quoted(rs[0].1);
        let rest = repos_tail_json(rs.drop_first());
        assert(cj == (q0 + seq![':'] + qn) + rest);
        assert(cj + seq!['}'] =~= q0 + (seq![':'] + (qn + (rest + seq!['}']))));
        crate::json::lemma_peel(s, i, q0, seq![':'] + (qn + (rest + seq!['}'])));
        crate::json::lemma_char_at(s, i, q0, 0);
        assert(s[i] == '"');
        assert(s[i] != '}');
        crate::json::lemma_parse_quoted(s, i, repo_id_text(rs[0].0));
        crate::ids::lemma_id_text_round_trip(rs[0].0);
        let j: int = i + q0.len() as int;
        crate::json::lemma_peel(s, j, seq![':'], qn + (rest + seq!['}']));
        crate::json::lemma_char_at(s, j, seq![':'], 0);
        assert(s[j] == ':');
        crate::json::lemma_peel(s, j + 1, qn, rest + seq!['}']);
        crate::json::lemma_parse_quoted(s, j + 1, rs[0].1);
        let j2: int = j + 1 + qn.len() as int;
        lemma_state_pairs_tail(s, j2, Seq::<(u64, Seq<char>)>::empty().push(rs[0]), rs.drop_first());
        assert(Seq::<(u64, Seq<char>)>::empty().push(rs[0]) + rs.drop_first() =~= rs);
        assert((rs[0].0, rs[0].1) == rs[0]);
        assert(j2 + rest.len() + 1 == i + cj.len() + 1);
    }
}

/// Where each part of the rendered state stands in the text.
#[verifier::rlimit(100)]
#[verifier::spinoff_prover]
proof fn lemma_state_json_shape(d: StateData)
    ensures
        state_json(d).len() == 28 + repos_json(d.repos).len() + selected_json(d.selected).len(),
        state_json(d).subrange(0, 10) == seq!['{', '"', 'r', 'e', 'p', 'o', 's', '"', ':', '{'],
        state_json(d).subrange(10, 11 + repos_json(d.repos).len() as int) == repos_json(d.repos)
            + seq!['}'],
        state_json(d).subrange(
            10 + repos_json(d.repos).len() as int,
            27 + repos_json(d.repos).len() as int,
        ) == seq!['}', ',', '"', 's', 'e', 'l', 'e', 'c', 't', 'e', 'd', 'R', 'e', 'p', 'o', '"', ':'],
        state_json(d).subrange(
            27 + repos_json(d.repos).len() as int,
            27 + repos_json(d.repos).len() as int + selected_json(d.selected).len() as int,
        ) == selected_json(d.selected),
        state_json(d)[27 + repos_json(d.repos).len() as int + selected_json(
            d.selected,
        ).len() as int] == '}',
{
    let s = state_json(d);
    let lr = repos_json(d.repos).len() as int;
    let ls = selected_json(d.selected).len() as int;
    assert(s.len() == 28 + lr + ls);
    assert(s.subrange(0, 10) =~= seq!['{', '"', 'r', 'e', 'p', 'o', 's', '"', ':', '{']);
    assert(s.subrange(10, 11 + lr) =~= repos_json(d.repos) + seq!['}']);
    assert(s.subrange(10 + lr, 27 + lr) =~= seq![
        '}',
        ',',
        '"',
        's',
        'e',
        'l',
        'e',
        'c',
        't',
        'e',
        'd',
        'R',
        'e',
        'p',
        'o',
        '"',
        ':',
    ]);
    assert(s.subrange(27 + lr, 27 + lr + ls) =~= selected_json(d.selected));
    assert(s.subrange(27 + lr + ls, 28 + lr + ls) =~= seq!['}']);
    crate::json::lemma_char_at(s, 27 + lr + ls, seq!['}'], 0);
}

/// Reading the rendered selection yields the selection back.
proof fn lemma_parse_selected_round(s: Seq<char>, i: int, sel: Option<u64>)
    requires
        0 <= i,
        i + selected_json(sel).len() <= s.len(),
        s.subrange(i, i + selected_json(sel).len()) == selected_json(sel),
    ensures
        parse_selected(s, i) == Some((sel, i + selected_json(sel).len())),
{
    let ls = selected_json(sel).len() as int;
    match sel {
        None => {
            assert(selected_json(sel) == seq!['n', 'u', 'l', 'l']);
            assert(s.subrange(i, i + 4) =~= seq!['n', 'u', 'l', 'l']);
        },
        Some(v) => {
            lemma_repo_id_text_plain(v);
            assert(selected_json(sel) == quoted(repo_id_text(v)));
            if i + 4 <= s.len() && s.subrange(i, i + 4) == seq!['n', 'u', 'l', 'l'] {
                assert(s.subrange(i, i + 4)[0] == s[i]);
                assert(s.subrange(i, i + ls)[0] == s[i]);
                assert(quoted(repo_id_text(v))[0] == '"');
                assert(false);
            }
            crate::json::lemma_parse_quoted(s, i, repo_id_text(v));
            crate::ids::lemma_id_text_round_trip(v);
        },
    }
}

/// Reading the rendered JSON of the state yields the state's data back.
#[verifier::rlimit(100)]
#[verifier::spinoff_prover]
pub proof fn lemma_state_json_round_trip(d: StateData)
    ensures
        parse_state_text(state_json(d)) == Some(d),
{
    let s = state_json(d);
    let lr = repos_json(d.repos).len() as int;
    let ls = selected_json(d.selected).len() as int;
    let krepos = seq!['r', 'e', 'p', 'o', 's'];
    let kselected = seq!['s', 'e', 'l', 'e', 'c', 't', 'e', 'd', 'R', 'e', 'p', 'o'];
    assert forall|i: int|
        0 <= i < krepos.len() implies crate::json::is_plain(#[trigger] krepos[i]) by {}
    assert forall|i: int|
        0 <= i < kselected.len() implies crate::json::is_plain(#[trigger] kselected[i]) by {}
    crate::json::lemma_quoted_plain(krepos);
    crate::json::lemma_quoted_plain(kselected);
    lemma_state_json_shape(d);

    let blockA = seq!['{', '"', 'r', 'e', 'p', 'o', 's', '"', ':', '{'];
    let blockB = seq![
        '}',
        ',',
        '"',
        's',
        'e',
        'l',
        'e',
        'c',
        't',
        'e',
        'd',
        'R',
        'e',
        'p',
        'o',
        '"',
        ':',
    ];
    crate::json::lemma_char_at(s, 0, blockA, 0);
    assert(s[0] == '{');
    assert(s.subrange(1, 8) =~= quoted(krepos)) by {
        assert forall|k: int| 0 <= k < 7 implies s.subrange(1, 8)[k] == quoted(krepos)[k] by {
            crate::json::lemma_char_at(s, 0, blockA, k + 1);
        }
    }
    crate::json::lemma_parse_quoted(s, 1, krepos);
    crate::json::lemma_char_at(s, 0, blockA, 8);
    assert(s[8] == ':');
    assert(expect_key(s, 1, krepos) == Some(9int));
    crate::json::lemma_char_at(s, 0, blockA, 9);
    assert(s[9] == '{');

    lemma_state_pairs_first(s, 10, d.repos);
    assert(parse_repo_pairs(s, 10, Seq::empty(), true) == Some((d.repos, 11 + lr)));

    crate::json::lemma_char_at(s, 10 + lr, blockB, 1);
    assert(s[11 + lr] == ',');
    assert(s.subrange(12 + lr, 26 + lr) =~= quoted(kselected)) by {
        assert forall|k: int|
            0 <= k < 14 implies s.subrange(12 + lr, 26 + lr)[k] == quoted(kselected)[k] by {
            crate::json::lemma_char_at(s, 10 + lr, blockB, k + 2);
        }
    }
    crate::json::lemma_parse_quoted(s, 12 + lr, kselected);
    crate::json::lemma_char_at(s, 10 + lr, blockB, 16);
    assert(s[26 + lr] == ':');
    assert(expect_key(s, 12 + lr, kselected) == Some(27 + lr));

    lemma_parse_selected_round(s, 27 + lr, d.selected);
    assert(s[27 + lr + ls] == '}');
    assert(27 + lr + ls + 1 == s.len());
    assert(parse_state_text(s) == Some(StateData { repos: d.repos, selected: d.selected }));
    assert(StateData { repos: d.repos, selected: d.selected } == d);
}

/// The rendered tail of the repository map, up to entry `k`.
pub open spec fn pairs_upto(rs: Seq<(u64, Seq<char>)>, k: int) -> Seq<char> {
    repos_tail_json(rs.drop_first().take(k - 1))
}

/// Appending one more entry extends the rendered tail by a comma and the
/// entry's text.
proof fn lemma_pairs_upto_step(rs: Seq<(u64, Seq<char>)>, k: int)
    requires
        1 <= k < rs.len(),
    ensures
        pairs_upto(rs, k + 1) == pairs_upto(rs, k) + (seq![','] + pair_json(rs[k].0, rs[k].1)),
    decreases k,
{
    let t = rs.drop_first();
    lemma_pairs_tail_step(t, k);
    assert(t[k - 1] == rs[k]);
}

/// The same step, phrased over the tail directly.
proof fn lemma_pairs_tail_step(t: Seq<(u64, Seq<char>)>, k: int)
    requires
        1 <= k <= t.len(),
    ensures
        repos_tail_json(t.take(k)) == repos_tail_json(t.take(k - 1)) + (seq![','] + pair_json(
            t[k - 1].0,
            t[k - 1].1,
        )),
    decreases k,
{
    if k == 1 {
        assert(t.take(0) =~= Seq::<(u64, Seq<char>)>::empty());
        assert(t.take(1)[0] == t[0]);
        assert(t.take(1).drop_first() =~= Seq::<(u64, Seq<char>)>::empty());
        assert(repos_tail_json(Seq::<(u64, Seq<char>)>::empty()) == Seq::<char>::empty());
        assert(repos_tail_json(t.take(1)) =~= Seq::<char>::empty() + (seq![','] + pair_json(
            t[0].0,
            t[0].1,
        )));
    } else {
        assert(t.take(k)[0] == t[0]);
        assert(t.take(k).drop_first() =~= t.drop_first().take(k - 1));
        assert(t.take(k - 1)[0] == t[0]);
        assert(t.take(k - 1).drop_first() =~= t.drop_first().take(k - 2));
        lemma_pairs_tail_step(t.drop_first(), k - 1);
        assert(t.drop_first()[k - 2] == t[k - 1]);
        assert(seq![','] + pair_json(t[0].0, t[0].1) + (repos_tail_json(t.drop_first().take(k - 2))
            + (seq![','] + pair_json(t[k - 1].0, t[k - 1].1))) =~= (seq![','] + pair_json(
            t[0].0,
            t[0].1,
        ) + repos_tail_json(t.drop_first().take(k - 2))) + (seq![','] + pair_json(
            t[k - 1].0,
            t[k - 1].1,
        )));
    }
}

/// The full tail is the tail up to the last entry.
proof fn lemma_pairs_upto_full(rs: Seq<(u64, Seq<char>)>)
    requires
        rs.len() >= 1,
    ensures
        pair_json(rs[0].0, rs[0].1) + pairs_upto(rs, rs.len() as int) == repos_json(rs),
{
    assert(rs.drop_first().take(rs.len() - 1) =~= rs.drop_first());
}

/// Render the state as JSON.
#[verifier::rlimit(100)]
#[verifier::spinoff_prover]
pub fn render_state(st: &State) -> (out: Vec<char>)
    ensures
        out@ == state_json(st.data()),
{
    let mut out: Vec<char> = Vec::new();
    out.push('{');
    out.push('"');
    out.push('r');
    out.push('e');
    out.push('p');
    out.push('o');
    out.push('s');
    out.push('"');
    out.push(':');
    out.push('{');
    let ghost mid = out@;
    let mut k: usize = 0;
    while k < st.repos.len()
        invariant
            k <= st.repos@.len(),
            k == 0 ==> out@ == mid,
            k > 0 ==> out@ == mid + pair_json(
                st.repos@[0].0.spec_value(),
                st.repos@[0].1@,
            ) + pairs_upto(st.data().repos, k as int),
        decreases st.repos@.len() - k,
    {
        if k > 0 {
            out.push(',');
        }
        let idtext = st.repos[k].0.to_text();
        push_quoted(&mut out, &idtext);
        out.push(':');
        let name = chars_of(st.repos[k].1.as_str());
        push_quoted(&mut out, &name);
        proof {
            let rs = st.data().repos;
            assert(rs[k as int] == (st.repos@[k as int].0.spec_value(), st.repos@[k as int].1@));
            if k == 0 {
                assert(rs.drop_first().take(0) =~= Seq::<(u64, Seq<char>)>::empty());
                assert(pairs_upto(rs, 1) == repos_tail_json(Seq::<(u64, Seq<char>)>::empty()));
                assert(out@ =~= mid + pair_json(rs[0].0, rs[0].1) + pairs_upto(rs, 1));
            } else {
                assert(out@ =~= mid + pair_json(rs[0].0, rs[0].1) + (pairs_upto(rs, k as int) + (
                seq![','] + pair_json(rs[k as int].0, rs[k as int].1))));
                lemma_pairs_upto_step(rs, k as int);
            }
        }
        k = k + 1;
    }
    proof {
        let rs = st.data().repos;
        if st.repos@.len() == 0 {
            assert(repos_json(rs) =~= Seq::<char>::empty());
            assert(out@ =~= mid + repos_json(rs));
        } else {
            lemma_pairs_upto_full(rs);
            assert(out@ =~= mid + repos_json(rs));
        }
    }
    out.push('}');
    out.push(',');
    out.push('"');
    out.push('s');
    out.push('e');
    out.push('l');
    out.push('e');
    out.push('c');
    out.push('t');
    out.push('e');
    out.push('d');
    out.push('R');
    out.push('e');
    out.push('p');
    out.push('o');
    out.push('"');
    out.push(':');
    match &st.selected_repo {
        None => {
            out.push('n');
            out.push('u');
            out.push('l');
            out.push('l');
        },
        Some(id) => {
            let idtext = id.to_text();
            push_quoted(&mut out, &idtext);
        },
    }
    out.push('}');
    proof {
        assert(out@ =~= state_json(st.data()));
    }
    out
}

/// Read the repository map's entries up to the closing brace.
fn scan_repo_pairs(s: &Vec<char>, start: usize) -> (r: Option<(Vec<(RepoId, String)>, usize)>)
    ensures
        match r {
            Some(v) => parse_repo_pairs(s@, start as int, Seq::empty(), true) == Some(
                (pairs_data(v.0@), v.1 as int),
            ) && v.1 <= s@.len(),
            None => parse_repo_pairs(s@, start as int, Seq::empty(), true) is None,
        },
{
    let n = s.len();
    if start > n {
        return None;
    }
    let mut acc: Vec<(RepoId, String)> = Vec::new();
    let mut i: usize = start;
    let mut first: bool = true;
    proof {
        assert(pairs_data(acc@) =~= Seq::<(u64, Seq<char>)>::empty());
    }
    loop
        invariant
            n == s@.len(),
            i <= n,
            parse_repo_pairs(s@, start as int, Seq::empty(), true) == parse_repo_pairs(
                s@,
                i as int,
                pairs_data(acc@),
                first,
            ),
        ensures
            parse_repo_pairs(s@, start as int, Seq::empty(), true) is None,
        decreases n - i,
    {
        if i >= n {
            break ;
        }
        if s[i] == '}' {
            proof {
                assert(parse_repo_pairs(s@, i as int, pairs_data(acc@), first) == Some(
                    (pairs_data(acc@), i + 1),
                ));
            }
            return Some((acc, i + 1));
        }
        let start2 = if first {
            i
        } else {
            if s[i] != ',' {
                return None;
            }
            i + 1
        };
        let (t, j) = match scan_qstring(s, start2) {
            Some(p) => p,
            None => {
                return None;
            },
        };
        let id = match RepoId::from_text(&t) {
            Some(id) => id,
            None => {
                return None;
            },
        };
        if j >= n {
            return None;
        }
        if s[j] != ':' {
            return None;
        }
        let (name, j2) = match scan_qstring(s, j + 1) {
            Some(p) => p,
            None => {
                return None;
            },
        };
        let ghost prev = acc@;
        acc.push((id, string_from_chars(&name)));
        proof {
            assert(pairs_data(acc@) =~= pairs_data(prev).push((id.spec_value(), name@)));
        }
        i = j2;
        first = false;
    }
    None
}

/// The plain values of repository entries.
pub open spec fn pairs_data(rs: Seq<(RepoId, String)>) -> Seq<(u64, Seq<char>)> {
    Seq::new(rs.len(), |i: int| (rs[i].0.spec_value(), rs[i].1@))
}

/// Read state JSON.
pub fn parse_state(s: &Vec<char>) -> (r: Option<State>)
    ensures
        match r {
            Some(st) => parse_state_text(s@) == Some(st.data()),
            None => parse_state_text(s@) is None,
        },
{
    let n = s.len();
    if n == 0 {
        return None;
    }
    if s[0] != '{' {
        return None;
    }
    let mut key_repos: Vec<char> = Vec::new();
    key_repos.push('r');
    key_repos.push('e');
    key_repos.push('p');
    key_repos.push('o');
    key_repos.push('s');
    proof {
        assert(key_repos@ =~= seq!['r', 'e', 'p', 'o', 's']);
    }
    let i1 = match scan_state_key(s, 1, &key_repos) {
        Some(i) => i,
        None => {
            return None;
        },
    };
    if i1 >= n {
        return None;
    }
    if s[i1] != '{' {
        return None;
    }
    let (repos, i2) = match scan_repo_pairs(s, i1 + 1) {
        Some(p) => p,
        None => {
            return None;
        },
    };
    if i2 >= n {
        return None;
    }
    if s[i2] != ',' {
        return None;
    }
    let mut key_selected: Vec<char> = Vec::new();
    key_selected.push('s');
    key_selected.push('e');
    key_selected.push('l');
    key_selected.push('e');
    key_selected.push('c');
    key_selected.push('t');
    key_selected.push('e');
    key_selected.push('d');
    key_selected.push('R');
    key_selected.push('e');
    key_selected.push('p');
    key_selected.push('o');
    proof {
        assert(key_selected@ =~= seq!['s', 'e', 'l', 'e', 'c', 't', 'e', 'd', 'R', 'e', 'p', 'o']);
    }
    let i3 = match scan_state_key(s, i2 + 1, &key_selected) {
        Some(i) => i,
        None => {
            return None;
        },
    };
    let (selected, i4) = match scan_selected(s, i3) {
        Some(p) => p,
        None => {
            return None;
        },
    };
    if i4 >= n {
        return None;
    }
    if s[i4] != '}' {
        return None;
    }
    if i4 + 1 != n {
        return None;
    }
    let st = State { repos, selected_repo: selected };
    proof {
        assert(st.data().repos =~= pairs_data(st.repos@));
    }
    Some(st)
}

/// Read a quoted key and its colon.
fn scan_state_key(s: &Vec<char>, i: usize, key: &Vec<char>) -> (r: Option<usize>)
    ensures
        match r {
            Some(j) => expect_key(s@, i as int, key@) == Some(j as int) && i < j <= s@.len(),
            None => expect_key(s@, i as int, key@) is None,
        },
{
    let (k, j) = match scan_qstring(s, i) {
        Some(p) => p,
        None => {
            return None;
        },
    };
    if !chars_equal(&k, key) {
        return None;
    }
    if j >= s.len() {
        return None;
    }
    if s[j] != ':' {
        return None;
    }
    Some(j + 1)
}

/// Read the selection: null or a quoted repository id.
fn scan_selected(s: &Vec<char>, i: usize) -> (r: Option<(Option<RepoId>, usize)>)
    ensures
        match r {
            Some(v) => parse_selected(s@, i as int) == Some(
                (
                    match v.0 {
                        None => None::<u64>,
                        Some(id) => Some(id.spec_value()),
                    },
                    v.1 as int,
                ),
            ) && v.1 <= s@.len(),
            None => parse_selected(s@, i as int) is None,
        },
{
    let n = s.len();
    if i < n && n - i >= 4 && s[i] == 'n' {
        if s[i + 1] == 'u' && s[i + 2] == 'l' && s[i + 3] == 'l' {
            proof {
                assert(s@.subrange(i as int, i + 4) =~= seq!['n', 'u', 'l', 'l']);
            }
            return Some((None, i + 4));
        }
        proof {
            assert(s@.subrange(i as int, i + 4)[1] == s@[i + 1]);
            assert(s@.subrange(i as int, i + 4)[2] == s@[i + 2]);
            assert(s@.subrange(i as int, i + 4)[3] == s@[i + 3]);
            assert(s@.subrange(i as int, i + 4) != seq!['n', 'u', 'l', 'l']);
            assert(parse_qstring(s@, i as int) is None);
        }
        return None;
    }
    proof {
        if 0 <= i && i + 4 <= s@.len() && s@.subrange(i as int, i + 4) == seq!['n', 'u', 'l', 'l'] {
            assert(s@.subrange(i as int, i + 4)[0] == s@[i as int]);
            assert(false);
        }
    }
    let (t, j) = match scan_qstring(s, i) {
        Some(p) => p,
        None => {
            return None;
        },
    };
    match RepoId::from_text(&t) {
        Some(id) => Some((Some(id), j)),
        None => None,
    }
}

} // verus!
