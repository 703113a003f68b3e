//! The configuration store: default key/value pairs, overrides loaded from a
//! delimiter-separated text, and typed access to the values.

use crate::parse::FromText;
use crate::table::{
    accepted, distinct_keys, first_malformed, keys_of, lemma_overridden_push, lemma_table_absent,
    lemma_table_holds, lemma_table_update, loaded, malformed_message, overridden, pairs_of, render,
    table_of,
};
use crate::text::{lines, parse_line, push_char, read_lines, texts};
use vstd::prelude::*;

verus! {

/// The delimiter of a store on which none was set.
pub const DEFAULT_DELIM: char = ':';

/// What a [`Conf`] stands for.
pub struct ConfView {
    /// The value of each key.
    pub entries: Map<Seq<char>, Seq<char>>,
    /// The character that separates key and value in an override line.
    pub delim: char,
    /// The name of the file that overrides are to be read from.
    pub file: Seq<char>,
    /// Whether an override load has succeeded.
    pub updated: bool,
}

/// A flat table of configuration keys and their values. The keys are fixed
/// when the store is made; an override load changes values only.
#[derive(Debug)]
pub struct Conf {
    pairs: Vec<(String, String)>,
    delim: Option<char>,
    conf_file_name: String,
    updated: bool,
    empty_string: String,
}

impl View for Conf {
    type V = ConfView;

    closed spec fn view(&self) -> ConfView {
        ConfView {
            entries: table_of(self.listing()),
            delim: match self.delim {
                Some(c) => c,
                None => DEFAULT_DELIM,
            },
            file: self.conf_file_name@,
            updated: self.updated,
        }
    }
}

impl Conf {
    /// The entries in the order in which `display` renders them. A load
    /// keeps the order of the keys.
    pub closed spec fn listing(&self) -> Seq<(Seq<char>, Seq<char>)> {
        pairs_of(self.pairs@)
    }

    /// The store's invariant: no key is held twice.
    pub closed spec fn wf(&self) -> bool {
        &&& distinct_keys(self.listing())
        &&& self.empty_string@ == Seq::<char>::empty()
    }

    /// The listing names each key of the table once, with its value.
    pub proof fn lemma_listing(&self)
        requires
            self.wf(),
        ensures
            distinct_keys(self.listing()),
            table_of(self.listing()) == self@.entries,
    {
    }

    /// The position of `key` among the pairs.
    fn position(pairs: &Vec<(String, String)>, key: &str) -> (found: Option<usize>)
        ensures
            match found {
                Some(i) => i < pairs@.len() && pairs@[i as int].0@ == key@,
                None => forall|j: int| 0 <= j < pairs@.len() ==> (#[trigger] pairs@[j]).0@ != key@,
            },
    {
        let wanted = key.to_owned();
        let mut i: usize = 0;
        while i < pairs.len()
            invariant
                i <= pairs@.len(),
                wanted@ == key@,
                forall|j: int| 0 <= j < i ==> (#[trigger] pairs@[j]).0@ != key@,
            decreases pairs@.len() - i,
        {
            if pairs[i].0 == wanted {
                return Some(i);
            }
            i += 1;
        }
        None
    }

    /// Sets the value of `key`, adding the key where the pairs lack it.
    fn put(pairs: &mut Vec<(String, String)>, key: String, value: String)
        requires
            distinct_keys(pairs_of(old(pairs)@)),
        ensures
            distinct_keys(pairs_of(final(pairs)@)),
            table_of(pairs_of(final(pairs)@)) == table_of(pairs_of(old(pairs)@)).insert(key@, value@),
            !keys_of(pairs_of(old(pairs)@)).contains(key@) ==> pairs_of(final(pairs)@) == pairs_of(
                old(pairs)@,
            ).push((key@, value@)),
    {
        let ghost before = pairs_of(pairs@);
        match Self::position(pairs, key.as_str()) {
            Some(i) => {
                proof {
                    assert(before[i as int] == (pairs@[i as int].0@, pairs@[i as int].1@));
                    lemma_table_update(before, i as int, value@);
                }
                pairs.set(i, (key, value));
                assert(pairs_of(pairs@) =~= before.update(i as int, (key@, value@)));
                assert(keys_of(before)[i as int] == key@);
            },
            None => {
                pairs.push((key, value));
                let ghost after = pairs_of(pairs@);
                assert(after.drop_last() =~= before);
                assert(after.last() == (key@, value@));
                assert(after =~= before.push((key@, value@)));
                assert forall|a: int, b: int| 0 <= a < b < after.len() implies (#[trigger] after[a]).0
                    != (#[trigger] after[b]).0 by {
                    assert(after[a] == before[a]);
                    assert(before[a] == (old(pairs)@[a].0@, old(pairs)@[a].1@));
                    if b < before.len() {
                        assert(after[b] == before[b]);
                    }
                }
            },
        }
    }

    /// Sets the value of `key` where the store holds the key, and does
    /// nothing where it does not.
    fn set_existing(&mut self, key: String, value: String)
        requires
            old(self).wf(),
        ensures
            final(self).wf(),
            final(self)@ == (ConfView {
                entries: if old(self)@.entries.dom().contains(key@) {
                    old(self)@.entries.insert(key@, value@)
                } else {
                    old(self)@.entries
                },
                ..old(self)@
            }),
            keys_of(final(self).listing()) == keys_of(old(self).listing()),
    {
        let ghost before = self.listing();
        match Self::position(&self.pairs, key.as_str()) {
            Some(i) => {
                proof {
                    assert(before[i as int] == (self.pairs@[i as int].0@, self.pairs@[i as int].1@));
                    lemma_table_update(before, i as int, value@);
                    lemma_table_holds(before, i as int);
                }
                self.pairs.set(i, (key, value));
                assert(self.listing() =~= before.update(i as int, (key@, value@)));
                assert(keys_of(self.listing()) =~= keys_of(before));
            },
            None => {
                proof {
                    assert forall|j: int| 0 <= j < before.len() implies (#[trigger] before[j]).0
                        != key@ by {
                        assert(before[j] == (self.pairs@[j].0@, self.pairs@[j].1@));
                    }
                    lemma_table_absent(before, key@);
                }
            },
        }
    }

    /// Makes a store that holds the given defaults: where no key is given
    /// twice, each key has exactly the value given with it. Where a key is
    /// given more than once, its last value counts. No delimiter and no file
    /// name are set, and nothing has been loaded.
    #[must_use]
    pub fn from<const N: usize>(defaults: [(String, String); N]) -> (conf: Self)
        ensures
            conf.wf(),
            conf@ == (ConfView {
                entries: table_of(pairs_of(defaults@)),
                delim: DEFAULT_DELIM,
                file: Seq::empty(),
                updated: false,
            }),
            distinct_keys(pairs_of(defaults@)) ==> conf.listing() == pairs_of(defaults@),
            distinct_keys(pairs_of(defaults@)) ==> forall|i: int|
                0 <= i < N ==> conf@.entries.dom().contains((#[trigger] defaults@[i]).0@)
                    && conf@.entries[defaults@[i].0@] == defaults@[i].1@,
    {
        let ghost given = pairs_of(defaults@);
        let mut pairs: Vec<(String, String)> = Vec::new();
        let mut i: usize = 0;
        assert(given.take(0) =~= Seq::empty());
        while i < N
            invariant
                i <= N == defaults@.len(),
                given == pairs_of(defaults@),
                distinct_keys(pairs_of(pairs@)),
                table_of(pairs_of(pairs@)) == table_of(given.take(i as int)),
                distinct_keys(given) ==> pairs_of(pairs@) == given.take(i as int),
            decreases N - i,
        {
            let key = defaults[i].0.clone();
            let value = defaults[i].1.clone();
            proof {
                let next = given.take(i + 1);
                assert(next.drop_last() =~= given.take(i as int));
                assert(next.last() == (key@, value@));
                assert(next =~= given.take(i as int).push((key@, value@)));
                if distinct_keys(given) {
                    let held = keys_of(given.take(i as int));
                    assert forall|j: int| 0 <= j < held.len() implies held[j] != key@ by {
                        assert(given[j].0 != given[i as int].0);
                    }
                }
            }
            Self::put(&mut pairs, key, value);
            i += 1;
        }
        assert(given.take(N as int) =~= given);
        proof {
            if distinct_keys(given) {
                assert forall|i: int| 0 <= i < N implies table_of(given).dom().contains(
                    (#[trigger] defaults@[i]).0@,
                ) && table_of(given)[defaults@[i].0@] == defaults@[i].1@ by {
                    assert(given[i] == (defaults@[i].0@, defaults@[i].1@));
                    lemma_table_holds(given, i);
                }
            }
        }
        Self {
            pairs,
            delim: None,
            conf_file_name: String::new(),
            empty_string: String::new(),
            updated: false,
        }
    }

    /// Sets the delimiter.
    pub fn with_delim(&mut self, delim: char) -> (conf: &mut Self)
        ensures
            *final(self) == *final(conf),
            conf.wf() == old(self).wf(),
            conf.listing() == old(self).listing(),
            conf@ == (ConfView { delim: delim, ..old(self)@ }),
    {
        self.delim = Some(delim);
        self
    }

    /// Sets the delimiter; reads well after another setter.
    pub fn and_delim(&mut self, delim: char) -> (conf: &mut Self)
        ensures
            *final(self) == *final(conf),
            conf.wf() == old(self).wf(),
            conf.listing() == old(self).listing(),
            conf@ == (ConfView { delim: delim, ..old(self)@ }),
    {
        self.with_delim(delim)
    }

    /// The delimiter: the one that was set, or `:` where none was.
    #[must_use]
    pub fn delim(&self) -> (c: char)
        ensures
            c == self@.delim,
    {
        match self.delim {
            Some(c) => c,
            None => DEFAULT_DELIM,
        }
    }

    /// Sets the name of the file that overrides are read from. The file is
    /// neither opened nor looked for.
    pub fn with_file(&mut self, conf_file_name: &str) -> (conf: &mut Self)
        ensures
            *final(self) == *final(conf),
            conf.wf() == old(self).wf(),
            conf.listing() == old(self).listing(),
            conf@ == (ConfView { file: conf_file_name@, ..old(self)@ }),
    {
        self.conf_file_name = conf_file_name.to_owned();
        self
    }

    /// Sets the file name; reads well after another setter.
    pub fn and_file(&mut self, conf_file_name: &str) -> (conf: &mut Self)
        ensures
            *final(self) == *final(conf),
            conf.wf() == old(self).wf(),
            conf.listing() == old(self).listing(),
            conf@ == (ConfView { file: conf_file_name@, ..old(self)@ }),
    {
        self.with_file(conf_file_name)
    }

    /// The file name that was set; empty where none was.
    #[must_use]
    pub fn file(&self) -> (name: &String)
        ensures
            name@ == self@.file,
    {
        &self.conf_file_name
    }

    /// Loads overrides from `contents`, the text of the override file.
    ///
    /// Each line up to the first one without the delimiter sets the value of
    /// its key, where the store holds that key; other keys are passed over.
    /// A line without the delimiter ends the load with an error that names
    /// the line, and what the lines before it have set stays set.
    pub fn update(&mut self, contents: &str) -> (done: Result<(), String>)
        requires
            old(self).wf(),
        ensures
            final(self).wf(),
            final(self)@.entries == loaded(old(self)@.entries, contents@, old(self)@.delim),
            final(self)@.entries.dom() == old(self)@.entries.dom(),
            final(self)@.delim == old(self)@.delim,
            final(self)@.file == old(self)@.file,
            keys_of(final(self).listing()) == keys_of(old(self).listing()),
            match first_malformed(lines(contents@), old(self)@.delim) {
                None => done is Ok && final(self)@.updated,
                Some(line) => done matches Err(message) && message@ == malformed_message(line)
                    && final(self)@.updated == old(self)@.updated,
            },
    {
        let rows = read_lines(contents);
        let delim = self.delim();
        let ghost all = lines(contents@);
        let ghost start = self@;
        let ghost mut edits: Seq<(Seq<char>, Seq<char>)> = Seq::empty();
        let mut j: usize = 0;
        assert(all.skip(0) =~= all);
        assert(overridden(start.entries, edits) =~= start.entries);
        assert(edits + accepted(all, delim) =~= accepted(all, delim));
        while j < rows.len()
            invariant
                self.wf(),
                j <= rows@.len(),
                texts(rows@) == all,
                all == lines(contents@),
                start == old(self)@,
                keys_of(self.listing()) == keys_of(old(self).listing()),
                self@ == (ConfView { entries: overridden(start.entries, edits), ..start }),
                delim == start.delim,
                accepted(all, delim) == edits + accepted(all.skip(j as int), delim),
                first_malformed(all, delim) == first_malformed(all.skip(j as int), delim),
            decreases rows@.len() - j,
        {
            let ghost rest = all.skip(j as int);
            assert(rest[0] == rows@[j as int]@);
            assert(rest.drop_first() =~= all.skip(j + 1));
            match parse_line(rows[j].as_str(), delim) {
                None => {
                    assert(edits + Seq::<(Seq<char>, Seq<char>)>::empty() =~= edits);
                    assert(overridden(start.entries, edits).dom() =~= start.entries.dom());
                    let message = String::from_str("No delimiter found in line: ").concat(
                        rows[j].as_str(),
                    );
                    return Err(message);
                },
                Some((key, value)) => {
                    proof {
                        lemma_overridden_push(start.entries, edits, key@, value@);
                        assert(overridden(start.entries, edits).dom() =~= start.entries.dom());
                        assert(edits.push((key@, value@)) + accepted(all.skip(j + 1), delim) =~= edits
                            + (seq![(key@, value@)] + accepted(all.skip(j + 1), delim)));
                        edits = edits.push((key@, value@));
                    }
                    self.set_existing(key, value);
                },
            }
            j += 1;
        }
        assert(overridden(start.entries, edits).dom() =~= start.entries.dom());
        assert(edits + Seq::<(Seq<char>, Seq<char>)>::empty() =~= edits);
        self.updated = true;
        Ok(())
    }

    /// Whether an override load has succeeded.
    #[must_use]
    pub fn is_updated(&self) -> (yes: bool)
        ensures
            yes == self@.updated,
    {
        self.updated
    }

    /// The value of `key` as it is stored, where the store holds the key.
    pub fn lookup(&self, key: &str) -> (out: Option<&String>)
        requires
            self.wf(),
        ensures
            match out {
                Some(value) => self@.entries.dom().contains(key@) && value@ == self@.entries[key@],
                None => !self@.entries.dom().contains(key@),
            },
    {
        match Self::position(&self.pairs, key) {
            Some(i) => {
                proof {
                    self.lemma_at(i as int);
                }
                Some(&self.pairs[i].1)
            },
            None => {
                proof {
                    self.lemma_none(key@);
                }
                None
            },
        }
    }

    /// The value of `key`, parsed as a `T`. `None` where the store lacks the
    /// key, and where the value does not parse.
    #[must_use]
    pub fn get<T: FromText>(&self, key: &str) -> (out: Option<T>)
        requires
            self.wf(),
        ensures
            out == if self@.entries.dom().contains(key@) {
                T::parsed(self@.entries[key@])
            } else {
                None
            },
    {
        match self.lookup(key) {
            Some(value) => T::from_text(value.as_str()),
            None => None,
        }
    }

    /// The value of `key` as it is stored; the empty string where the store
    /// lacks the key.
    pub fn index(&self, key: &str) -> (out: &String)
        requires
            self.wf(),
        ensures
            out@ == if self@.entries.dom().contains(key@) {
                self@.entries[key@]
            } else {
                Seq::empty()
            },
    {
        match self.lookup(key) {
            Some(value) => value,
            None => &self.empty_string,
        }
    }

    /// The entries as text, one line each: the key, the delimiter, a space
    /// and the value.
    pub fn display(&self) -> (out: String)
        ensures
            out@ == render(self.listing(), self@.delim),
    {
        let delim = self.delim();
        let ghost all = self.listing();
        let mut out = String::new();
        let mut i: usize = 0;
        assert(all.take(0) =~= Seq::empty());
        while i < self.pairs.len()
            invariant
                i <= self.pairs@.len(),
                all == self.listing(),
                delim == self@.delim,
                out@ == render(all.take(i as int), delim),
            decreases self.pairs@.len() - i,
        {
            let ghost before = out@;
            let ghost next = all.take(i + 1);
            assert(next.drop_last() =~= all.take(i as int));
            assert(next.last() == (self.pairs@[i as int].0@, self.pairs@[i as int].1@));
            out.append(self.pairs[i].0.as_str());
            push_char(&mut out, delim);
            push_char(&mut out, ' ');
            out.append(self.pairs[i].1.as_str());
            push_char(&mut out, '\n');
            assert(out@ =~= before + (next.last().0 + seq![delim, ' '] + next.last().1 + seq!['\n']));
            i += 1;
        }
        assert(all.take(self.pairs@.len() as int) =~= all);
        out
    }

    /// The table holds the pair at position `i`.
    proof fn lemma_at(&self, i: int)
        requires
            self.wf(),
            0 <= i < self.pairs@.len(),
        ensures
            self@.entries.dom().contains(self.pairs@[i].0@),
            self@.entries[self.pairs@[i].0@] == self.pairs@[i].1@,
    {
        assert(self.listing()[i] == (self.pairs@[i].0@, self.pairs@[i].1@));
        lemma_table_holds(self.listing(), i);
    }

    /// The table lacks a key that no pair holds.
    proof fn lemma_none(&self, key: Seq<char>)
        requires
            forall|j: int| 0 <= j < self.pairs@.len() ==> (#[trigger] self.pairs@[j]).0@ != key,
        ensures
            !self@.entries.dom().contains(key),
    {
        assert forall|j: int| 0 <= j < self.listing().len() implies (#[trigger] self.listing()[j]).0
            != key by {
            assert(self.listing()[j] == (self.pairs@[j].0@, self.pairs@[j].1@));
        }
        lemma_table_absent(self.listing(), key);
    }
}

} // verus!
