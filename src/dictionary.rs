//! The lexicon: an SKK dictionary split into okuri-nasi and okuri-ari tables.

use vstd::prelude::*;
use vstd::string::StringExecFns;
use crate::text::{
    chars_of, find_in, index_of, lines_of, split_on, starts_with_in, string_from_chars, strip_cr,
    trim, trim_range,
};

verus! {

/// One table row: a key and its ordered candidates.
pub type Row = (String, Vec<String>);

/// The candidates of a row, as sequences of characters.
pub open spec fn row_values(row: Row) -> Seq<Seq<char>> {
    row.1.deep_view()
}

/// The map that a list of rows describes; a later row overrides an earlier
/// one with the same key.
pub open spec fn table_of(rows: Seq<Row>) -> Map<Seq<char>, Seq<Seq<char>>>
    decreases rows.len(),
{
    if rows.len() == 0 {
        Map::empty()
    } else {
        table_of(rows.drop_last()).insert(rows.last().0@, row_values(rows.last()))
    }
}

/// No two rows share a key.
pub open spec fn keys_unique(rows: Seq<Row>) -> bool {
    forall|i: int, j: int| 0 <= i < j < rows.len() ==> rows[i].0@ != rows[j].0@
}

proof fn lemma_table_at(rows: Seq<Row>, i: int)
    requires
        keys_unique(rows),
        0 <= i < rows.len(),
    ensures
        table_of(rows).contains_key(rows[i].0@),
        table_of(rows)[rows[i].0@] == row_values(rows[i]),
    decreases rows.len(),
{
    if i < rows.len() - 1 {
        let init = rows.drop_last();
        assert(init[i] == rows[i]);
        lemma_table_at(init, i);
    }
}

proof fn lemma_table_absent(rows: Seq<Row>, k: Seq<char>)
    requires
        forall|i: int| 0 <= i < rows.len() ==> rows[i].0@ != k,
    ensures
        !table_of(rows).contains_key(k),
    decreases rows.len(),
{
    if rows.len() > 0 {
        let init = rows.drop_last();
        assert forall|i: int| 0 <= i < init.len() implies init[i].0@ != k by {
            assert(init[i] == rows[i]);
        }
        lemma_table_absent(init, k);
    }
}

proof fn lemma_table_len(rows: Seq<Row>)
    requires
        keys_unique(rows),
    ensures
        table_of(rows).dom().finite(),
        table_of(rows).dom().len() == rows.len(),
    decreases rows.len(),
{
    if rows.len() > 0 {
        let init = rows.drop_last();
        assert forall|i: int| 0 <= i < init.len() implies init[i].0@ != rows.last().0@ by {
            assert(init[i] == rows[i]);
        }
        lemma_table_absent(init, rows.last().0@);
        lemma_table_len(init);
    }
}

/// Index of the row whose key is `key`, if any.
fn find_row(rows: &Vec<Row>, key: &String) -> (r: Option<usize>)
    ensures
        match r {
            Some(i) => i < rows@.len() && rows@[i as int].0@ == key@,
            None => forall|i: int| 0 <= i < rows@.len() ==> rows@[i].0@ != key@,
        },
{
    let mut i: usize = 0;
    while i < rows.len()
        invariant
            i <= rows@.len(),
            forall|j: int| 0 <= j < i ==> rows@[j].0@ != key@,
        decreases rows@.len() - i,
    {
        if rows[i].0 == *key {
            return Some(i);
        }
        i += 1;
    }
    None
}

/// Looks `key` up in the rows.
fn table_get<'a>(rows: &'a Vec<Row>, key: &String) -> (r: Option<&'a Vec<String>>)
    requires
        keys_unique(rows@),
    ensures
        match r {
            Some(v) => table_of(rows@).contains_key(key@) && v.deep_view() == table_of(
                rows@,
            )[key@],
            None => !table_of(rows@).contains_key(key@),
        },
{
    match find_row(rows, key) {
        Some(i) => {
            proof {
                lemma_table_at(rows@, i as int);
            }
            Some(&rows[i].1)
        },
        None => {
            proof {
                lemma_table_absent(rows@, key@);
            }
            None
        },
    }
}

/// Sets the candidates of `key`, replacing a row with the same key.
fn table_insert(rows: &mut Vec<Row>, key: String, values: Vec<String>)
    requires
        keys_unique(old(rows)@),
    ensures
        keys_unique(final(rows)@),
        table_of(final(rows)@) == table_of(old(rows)@).insert(key@, values.deep_view()),
{
    let ghost values_view = values.deep_view();
    match find_row(rows, &key) {
        Some(i) => {
            let ghost before = rows@;
            rows.set(i, (key, values));
            proof {
                let after = rows@;
                assert(keys_unique(after)) by {
                    assert forall|a: int, b: int| 0 <= a < b < after.len() implies after[a].0@
                        != after[b].0@ by {
                        if a != i && b != i {
                            assert(after[a] == before[a] && after[b] == before[b]);
                        } else if a == i {
                            assert(after[b] == before[b]);
                        } else {
                            assert(after[a] == before[a]);
                        }
                    }
                }
                let m = table_of(before).insert(after[i as int].0@, values_view);
                assert forall|k: Seq<char>| #[trigger] m.contains_key(k) <==> table_of(after).contains_key(k) by {
                    if exists|j: int| 0 <= j < after.len() && after[j].0@ == k {
                        let j = choose|j: int| 0 <= j < after.len() && after[j].0@ == k;
                        lemma_table_at(after, j);
                        if j != i {
                            assert(before[j] == after[j]);
                            lemma_table_at(before, j);
                        }
                    } else {
                        lemma_table_absent(after, k);
                        assert forall|j: int| 0 <= j < before.len() implies before[j].0@ != k by {
                            if j != i {
                                assert(before[j] == after[j]);
                            }
                        }
                        lemma_table_absent(before, k);
                    }
                }
                assert forall|k: Seq<char>| #[trigger] m.contains_key(k) implies m[k] == table_of(after)[k] by {
                    let j = if k == after[i as int].0@ {
                        i as int
                    } else {
                        lemma_table_absent_contrapositive(before, k);
                        choose|j: int| 0 <= j < before.len() && before[j].0@ == k
                    };
                    lemma_table_at(after, j);
                    if j != i {
                        assert(before[j] == after[j]);
                        lemma_table_at(before, j);
                    }
                }
                assert(m =~= table_of(after));
            }
        },
        None => {
            rows.push((key, values));
            proof {
                let after = rows@;
                assert(after.drop_last() =~= old(rows)@);
            }
        },
    }
}

proof fn lemma_table_absent_contrapositive(rows: Seq<Row>, k: Seq<char>)
    requires
        table_of(rows).contains_key(k),
    ensures
        exists|j: int| 0 <= j < rows.len() && rows[j].0@ == k,
{
    if !(exists|j: int| 0 <= j < rows.len() && rows[j].0@ == k) {
        lemma_table_absent(rows, k);
    }
}

/// Whether `xs` contains `x`.
fn contains_string(xs: &Vec<String>, x: &String) -> (r: bool)
    ensures
        r == xs.deep_view().contains(x@),
{
    let mut i: usize = 0;
    while i < xs.len()
        invariant
            i <= xs@.len(),
            forall|j: int| 0 <= j < i ==> xs@[j]@ != x@,
        decreases xs@.len() - i,
    {
        if xs[i] == *x {
            assert(xs.deep_view()[i as int] == x@);
            return true;
        }
        i += 1;
    }
    proof {
        if xs.deep_view().contains(x@) {
            let j = choose|j: int| 0 <= j < xs.deep_view().len() && xs.deep_view()[j] == x@;
            assert(xs@[j]@ == x@);
        }
    }
    false
}

/// `x` appended to `xs` unless already present.
pub open spec fn push_unique(xs: Seq<Seq<char>>, x: Seq<char>) -> Seq<Seq<char>> {
    if xs.contains(x) {
        xs
    } else {
        xs.push(x)
    }
}

/// Each of `ys` in turn appended to `xs` unless already present.
pub open spec fn append_unique(xs: Seq<Seq<char>>, ys: Seq<Seq<char>>) -> Seq<Seq<char>>
    decreases ys.len(),
{
    if ys.len() == 0 {
        xs
    } else {
        push_unique(append_unique(xs, ys.drop_last()), ys.last())
    }
}

/// Appends `x` to `xs` unless already present.
pub(crate) fn push_unique_exec(xs: &mut Vec<String>, x: String)
    ensures
        final(xs).deep_view() == push_unique(old(xs).deep_view(), x@),
{
    if !contains_string(xs, &x) {
        let ghost before = xs.deep_view();
        xs.push(x);
        assert(xs.deep_view() =~= before.push(x@));
    }
}

/// The okuri symbol of a kana: the vowel kana stand for themselves, a
/// consonant row for its consonant letter.
pub open spec fn okuri_symbol(c: char) -> Option<char> {
    if c == 'あ' || c == 'い' || c == 'う' || c == 'え' || c == 'お' {
        Some(c)
    } else if c == 'か' || c == 'き' || c == 'く' || c == 'け' || c == 'こ' {
        Some('k')
    } else if c == 'さ' || c == 'し' || c == 'す' || c == 'せ' || c == 'そ' {
        Some('s')
    } else if c == 'た' || c == 'ち' || c == 'つ' || c == 'て' || c == 'と' || c == 'っ' {
        Some('t')
    } else if c == 'な' || c == 'に' || c == 'ぬ' || c == 'ね' || c == 'の' {
        Some('n')
    } else if c == 'は' || c == 'ひ' || c == 'ふ' || c == 'へ' || c == 'ほ' {
        Some('h')
    } else if c == 'ま' || c == 'み' || c == 'む' || c == 'め' || c == 'も' {
        Some('m')
    } else if c == 'や' || c == 'ゆ' || c == 'よ' || c == 'ゃ' || c == 'ゅ' || c == 'ょ' {
        Some('y')
    } else if c == 'ら' || c == 'り' || c == 'る' || c == 'れ' || c == 'ろ' {
        Some('r')
    } else if c == 'わ' || c == 'を' || c == 'ん' {
        Some('w')
    } else if c == 'が' || c == 'ぎ' || c == 'ぐ' || c == 'げ' || c == 'ご' {
        Some('g')
    } else if c == 'ざ' || c == 'じ' || c == 'ず' || c == 'ぜ' || c == 'ぞ' {
        Some('z')
    } else if c == 'だ' || c == 'ぢ' || c == 'づ' || c == 'で' || c == 'ど' {
        Some('d')
    } else if c == 'ば' || c == 'び' || c == 'ぶ' || c == 'べ' || c == 'ぼ' {
        Some('b')
    } else if c == 'ぱ' || c == 'ぴ' || c == 'ぷ' || c == 'ぺ' || c == 'ぽ' {
        Some('p')
    } else if c == 'ぁ' || c == 'ぃ' || c == 'ぅ' || c == 'ぇ' || c == 'ぉ' {
        Some(c)
    } else {
        None
    }
}

/// The okuri-ari key for a stem followed by the kana `c`, if `c` has a symbol.
pub open spec fn okuri_key(stem: Seq<char>, c: char) -> Option<Seq<char>> {
    match okuri_symbol(c) {
        Some(sym) => Some(stem.push(sym)),
        None => None,
    }
}

/// Converts a hiragana character to the okuri symbol used by okuri-ari keys.
pub fn hiragana_to_okuri_symbol(c: char) -> (r: Option<char>)
    ensures
        r == okuri_symbol(c),
{
    match c {
        'あ' | 'い' | 'う' | 'え' | 'お' => Some(c),
        'か' | 'き' | 'く' | 'け' | 'こ' => Some('k'),
        'さ' | 'し' | 'す' | 'せ' | 'そ' => Some('s'),
        'た' | 'ち' | 'つ' | 'て' | 'と' => Some('t'),
        'な' | 'に' | 'ぬ' | 'ね' | 'の' => Some('n'),
        'は' | 'ひ' | 'ふ' | 'へ' | 'ほ' => Some('h'),
        'ま' | 'み' | 'む' | 'め' | 'も' => Some('m'),
        'や' | 'ゆ' | 'よ' => Some('y'),
        'ら' | 'り' | 'る' | 'れ' | 'ろ' => Some('r'),
        'わ' | 'を' | 'ん' => Some('w'),
        'が' | 'ぎ' | 'ぐ' | 'げ' | 'ご' => Some('g'),
        'ざ' | 'じ' | 'ず' | 'ぜ' | 'ぞ' => Some('z'),
        'だ' | 'ぢ' | 'づ' | 'で' | 'ど' => Some('d'),
        'ば' | 'び' | 'ぶ' | 'べ' | 'ぼ' => Some('b'),
        'ぱ' | 'ぴ' | 'ぷ' | 'ぺ' | 'ぽ' => Some('p'),
        'ぁ' | 'ぃ' | 'ぅ' | 'ぇ' | 'ぉ' => Some(c),
        'ゃ' | 'ゅ' | 'ょ' => Some('y'),
        'っ' => Some('t'),
        _ => None,
    }
}

/// An SKK dictionary: okuri-nasi entries map a whole reading to its
/// candidates, okuri-ari entries map a stem plus an okuri symbol (`"かk"`) to
/// kanji stems. Keys are unique in each table.
#[derive(Debug)]
pub struct Dictionary {
    okuri_nasi: Vec<Row>,
    okuri_ari: Vec<Row>,
}

impl Dictionary {
    /// Keys are unique in each table.
    pub closed spec fn wf(&self) -> bool {
        &&& keys_unique(self.okuri_nasi@)
        &&& keys_unique(self.okuri_ari@)
    }

    /// The okuri-nasi table: reading to ordered candidates.
    pub closed spec fn nasi(&self) -> Map<Seq<char>, Seq<Seq<char>>> {
        table_of(self.okuri_nasi@)
    }

    /// The okuri-ari table: stem plus okuri symbol to ordered kanji stems.
    pub closed spec fn ari(&self) -> Map<Seq<char>, Seq<Seq<char>>> {
        table_of(self.okuri_ari@)
    }

    /// The candidates that an okuri-ari entry gives for `r`, whose last
    /// character is taken as the okuri: each kanji stem followed by it.
    pub open spec fn inflected_forms(&self, r: Seq<char>) -> Seq<Seq<char>> {
        if r.len() >= 2 {
            match okuri_key(r.drop_last(), r.last()) {
                Some(k) => if self.ari().contains_key(k) {
                    self.ari()[k].map_values(|s: Seq<char>| s.push(r.last()))
                } else {
                    seq![]
                },
                None => seq![],
            }
        } else {
            seq![]
        }
    }

    /// What `lookup_combined` returns for `r`.
    pub open spec fn combined(&self, r: Seq<char>) -> Seq<Seq<char>> {
        let direct = if self.nasi().contains_key(r) {
            self.nasi()[r]
        } else {
            seq![]
        };
        let with_inflected = append_unique(direct, self.inflected_forms(r));
        if r.len() > 0 {
            push_unique(with_inflected, r)
        } else {
            with_inflected
        }
    }

    /// What `lookup_with_fallback` returns for `r`: its okuri-nasi
    /// candidates followed by `r` itself unless already present, or `[r]`.
    pub open spec fn with_fallback(&self, r: Seq<char>) -> Seq<Seq<char>> {
        if self.nasi().contains_key(r) {
            push_unique(self.nasi()[r], r)
        } else {
            seq![r]
        }
    }

    /// Whether an okuri-ari entry matches `r` with its last character as okuri.
    pub open spec fn has_inflected(&self, r: Seq<char>) -> bool {
        &&& r.len() >= 2
        &&& okuri_key(r.drop_last(), r.last()) is Some
        &&& self.ari().contains_key(okuri_key(r.drop_last(), r.last())->0)
    }

    /// Creates an empty dictionary.
    pub fn new() -> (d: Dictionary)
        ensures
            d.wf(),
            d.nasi() == Map::<Seq<char>, Seq<Seq<char>>>::empty(),
            d.ari() == Map::<Seq<char>, Seq<Seq<char>>>::empty(),
    {
        Dictionary { okuri_nasi: Vec::new(), okuri_ari: Vec::new() }
    }

    /// Sets the okuri-nasi candidates of `reading`.
    pub fn insert(&mut self, reading: String, candidates: Vec<String>)
        requires
            old(self).wf(),
        ensures
            final(self).wf(),
            final(self).nasi() == old(self).nasi().insert(reading@, candidates.deep_view()),
            final(self).ari() == old(self).ari(),
    {
        table_insert(&mut self.okuri_nasi, reading, candidates);
    }

    /// Sets the kanji stems of the okuri-ari key `key` (a stem followed by an
    /// okuri symbol, as in `"かk"`).
    pub fn insert_okuri_ari(&mut self, key: String, stems: Vec<String>)
        requires
            old(self).wf(),
        ensures
            final(self).wf(),
            final(self).ari() == old(self).ari().insert(key@, stems.deep_view()),
            final(self).nasi() == old(self).nasi(),
    {
        table_insert(&mut self.okuri_ari, key, stems);
    }

    /// Looks up the okuri-nasi candidates of a reading.
    pub fn lookup(&self, reading: &str) -> (r: Option<&Vec<String>>)
        requires
            self.wf(),
        ensures
            match r {
                Some(v) => self.nasi().contains_key(reading@) && v.deep_view() == self.nasi()[reading@],
                None => !self.nasi().contains_key(reading@),
            },
    {
        let key = String::from_str(reading);
        table_get(&self.okuri_nasi, &key)
    }

    /// Looks up the okuri-nasi candidates of a reading, with the reading
    /// itself as the last candidate.
    pub fn lookup_with_fallback(&self, reading: &str) -> (r: Vec<String>)
        requires
            self.wf(),
        ensures
            r.deep_view() == self.with_fallback(reading@),
    {
        let key = String::from_str(reading);
        match table_get(&self.okuri_nasi, &key) {
            Some(candidates) => {
                let mut result = candidates.clone();
                assert(result@ =~= candidates@);
                push_unique_exec(&mut result, key);
                result
            },
            None => {
                let result = vec![key];
                assert(result.deep_view() =~= seq![reading@]);
                result
            },
        }
    }

    /// Looks up the okuri-ari entry for a stem (as characters) and the first
    /// kana of its okurigana.
    fn okuri_ari_get(&self, stem: Vec<char>, okuri_char: char) -> (r: Option<&Vec<String>>)
        requires
            self.wf(),
        ensures
            match r {
                Some(v) => okuri_key(stem@, okuri_char) is Some && self.ari().contains_key(
                    okuri_key(stem@, okuri_char)->0,
                ) && v.deep_view() == self.ari()[okuri_key(stem@, okuri_char)->0],
                None => okuri_key(stem@, okuri_char) is None || !self.ari().contains_key(
                    okuri_key(stem@, okuri_char)->0,
                ),
            },
    {
        match hiragana_to_okuri_symbol(okuri_char) {
            Some(symbol) => {
                let mut key_chars = stem;
                key_chars.push(symbol);
                let key = string_from_chars(key_chars.as_slice());
                table_get(&self.okuri_ari, &key)
            },
            None => None,
        }
    }

    /// Looks up the kanji stems of an okuri-ari entry: `stem` is the reading
    /// without okurigana, `okuri_char` the first kana of the okurigana.
    pub fn lookup_okuri_ari(&self, stem: &str, okuri_char: char) -> (r: Option<&Vec<String>>)
        requires
            self.wf(),
        ensures
            match r {
                Some(v) => okuri_key(stem@, okuri_char) is Some && self.ari().contains_key(
                    okuri_key(stem@, okuri_char)->0,
                ) && v.deep_view() == self.ari()[okuri_key(stem@, okuri_char)->0],
                None => okuri_key(stem@, okuri_char) is None || !self.ari().contains_key(
                    okuri_key(stem@, okuri_char)->0,
                ),
            },
    {
        self.okuri_ari_get(chars_of(stem), okuri_char)
    }

    /// Looks up a reading in both tables: its okuri-nasi candidates, then,
    /// taking the last character as okuri, each okuri-ari kanji stem followed
    /// by that character (duplicates skipped), then the reading itself as a
    /// fallback if it is non-empty and not yet present.
    pub fn lookup_combined(&self, reading: &str) -> (r: Vec<String>)
        requires
            self.wf(),
        ensures
            r.deep_view() == self.combined(reading@),
    {
        let key = String::from_str(reading);
        let mut result: Vec<String> = Vec::new();
        match table_get(&self.okuri_nasi, &key) {
            Some(candidates) => {
                result = candidates.clone();
                assert(result@ =~= candidates@);
            },
            None => {
                assert(result.deep_view() =~= seq![]);
            },
        }
        let ghost direct = result.deep_view();
        let chars = chars_of(reading);
        if chars.len() >= 2 {
            let mut stem = chars.clone();
            let okuri_char = stem.pop().unwrap();
            assert(stem@ =~= reading@.drop_last());
            match self.okuri_ari_get(stem, okuri_char) {
                Some(kanji_stems) => {
                    let ghost forms = self.inflected_forms(reading@);
                    assert(forms.len() == kanji_stems@.len());
                    let mut i: usize = 0;
                    while i < kanji_stems.len()
                        invariant
                            i <= kanji_stems@.len(),
                            forms.len() == kanji_stems@.len(),
                            forall|j: int| 0 <= j < forms.len() ==> #[trigger] forms[j] == kanji_stems@[j]@.push(okuri_char),
                            result.deep_view() == append_unique(direct, forms.take(i as int)),
                        decreases kanji_stems@.len() - i,
                    {
                        let mut form = chars_of(kanji_stems[i].as_str());
                        form.push(okuri_char);
                        let full_form = string_from_chars(form.as_slice());
                        assert(forms.take(i + 1).drop_last() =~= forms.take(i as int));
                        push_unique_exec(&mut result, full_form);
                        i += 1;
                    }
                    assert(forms.take(i as int) =~= forms);
                },
                None => {
                    assert(self.inflected_forms(reading@) =~= seq![]);
                },
            }
        } else {
            assert(self.inflected_forms(reading@) =~= seq![]);
        }
        if reading.is_empty() {
            assert(reading@.len() == 0);
        } else {
            push_unique_exec(&mut result, key);
        }
        result
    }

    /// Whether the reading has okuri-nasi candidates, or an okuri-ari entry
    /// matches it with its last character as okuri.
    pub fn has_candidates(&self, reading: &str) -> (r: bool)
        requires
            self.wf(),
        ensures
            r == (self.nasi().contains_key(reading@) || self.has_inflected(reading@)),
    {
        if self.lookup(reading).is_some() {
            return true;
        }
        let chars = chars_of(reading);
        if chars.len() >= 2 {
            let mut stem = chars.clone();
            let okuri_char = stem.pop().unwrap();
            assert(stem@ =~= reading@.drop_last());
            self.okuri_ari_get(stem, okuri_char).is_some()
        } else {
            false
        }
    }

    /// Whether both tables are empty.
    pub fn is_empty(&self) -> (r: bool)
        requires
            self.wf(),
        ensures
            r == (self.nasi() == Map::<Seq<char>, Seq<Seq<char>>>::empty() && self.ari() == Map::<
                Seq<char>,
                Seq<Seq<char>>,
            >::empty()),
    {
        proof {
            if self.okuri_nasi@.len() > 0 {
                lemma_table_at(self.okuri_nasi@, self.okuri_nasi@.len() - 1);
            }
            if self.okuri_ari@.len() > 0 {
                lemma_table_at(self.okuri_ari@, self.okuri_ari@.len() - 1);
            }
        }
        self.okuri_nasi.len() == 0 && self.okuri_ari.len() == 0
    }

    /// The number of entries in both tables (saturating at `usize::MAX`).
    pub fn len(&self) -> (r: usize)
        requires
            self.wf(),
        ensures
            r == vstd::math::min((self.nasi().dom().len() + self.ari().dom().len()) as int, usize::MAX as int),
    {
        proof {
            lemma_table_len(self.okuri_nasi@);
            lemma_table_len(self.okuri_ari@);
        }
        self.okuri_nasi.len().saturating_add(self.okuri_ari.len())
    }

    /// The number of okuri-ari entries.
    pub fn okuri_ari_len(&self) -> (r: usize)
        requires
            self.wf(),
        ensures
            r == self.ari().dom().len(),
    {
        proof {
            lemma_table_len(self.okuri_ari@);
        }
        self.okuri_ari.len()
    }
}

impl Default for Dictionary {
    fn default() -> (d: Dictionary)
        ensures
            d.wf(),
            d.nasi() == Map::<Seq<char>, Seq<Seq<char>>>::empty(),
            d.ari() == Map::<Seq<char>, Seq<Seq<char>>>::empty(),
    {
        Dictionary::new()
    }
}

/// The candidate that one `/`-separated field of an entry gives: the field
/// without surrounding whitespace, cut before any `;` annotation.
pub open spec fn candidate_of(field: Seq<char>) -> Seq<char> {
    let t = trim(field);
    match index_of(t, ';') {
        Some(i) => t.take(i),
        None => t,
    }
}

/// The non-empty candidates of the fields, in order.
pub open spec fn candidates_of(fields: Seq<Seq<char>>) -> Seq<Seq<char>>
    decreases fields.len(),
{
    if fields.len() == 0 {
        seq![]
    } else {
        let c = candidate_of(fields[0]);
        let rest = candidates_of(fields.drop_first());
        if c.len() > 0 {
            seq![c] + rest
        } else {
            rest
        }
    }
}

/// The entry that a line `reading /cand1/cand2/.../` gives: the text before
/// the first space, and the candidates of the `/`-separated fields after it;
/// none without a space or without any candidate.
pub open spec fn entry_of(line: Seq<char>) -> Option<(Seq<char>, Seq<Seq<char>>)> {
    match index_of(line, ' ') {
        Some(i) => {
            let cands = candidates_of(split_on(line.skip(i + 1), '/'));
            if cands.len() == 0 {
                None
            } else {
                Some((line.take(i), cands))
            }
        },
        None => None,
    }
}

/// Parses the entry on `cs[from..to]`.
fn parse_entry_in(cs: &Vec<char>, from: usize, to: usize) -> (r: Option<(String, Vec<String>)>)
    requires
        from <= to <= cs@.len(),
    ensures
        match r {
            Some(e) => entry_of(cs@.subrange(from as int, to as int)) == Some((e.0@, e.1.deep_view())),
            None => entry_of(cs@.subrange(from as int, to as int)) is None,
        },
{
    let ghost line = cs@.subrange(from as int, to as int);
    let space = match find_in(cs, from, to, ' ') {
        Some(j) => j,
        None => return None,
    };
    let ghost rest = line.skip(space - from + 1);
    assert(rest =~= cs@.subrange(space + 1, to as int));
    let mut candidates: Vec<String> = Vec::new();
    let mut pos: usize = space + 1;
    let mut done = false;
    while !done
        invariant
            space + 1 <= pos <= to <= cs@.len(),
            rest == cs@.subrange(space + 1, to as int),
            !done ==> candidates.deep_view() + candidates_of(split_on(cs@.subrange(pos as int, to as int), '/'))
                == candidates_of(split_on(rest, '/')),
            done ==> candidates.deep_view() == candidates_of(split_on(rest, '/')),
        decreases to - pos + (if done { 0int } else { 1int }),
    {
        let ghost field_list = split_on(cs@.subrange(pos as int, to as int), '/');
        let field_end = match find_in(cs, pos, to, '/') {
            Some(j) => j,
            None => to,
        };
        let (a, b) = trim_range(cs, pos, field_end);
        let cut = match find_in(cs, a, b, ';') {
            Some(k) => k,
            None => b,
        };
        let ghost field = cs@.subrange(pos as int, field_end as int);
        assert(candidate_of(field) =~= cs@.subrange(a as int, cut as int));
        let ghost before = candidates.deep_view();
        if cut > a {
            candidates.push(string_from_chars(&cs[a..cut]));
            assert(candidates.deep_view() =~= before.push(cs@.subrange(a as int, cut as int)));
        }
        if field_end < to {
            proof {
                let sub = cs@.subrange(pos as int, to as int);
                assert(sub.take(field_end - pos) =~= field);
                assert(sub.skip(field_end - pos + 1) =~= cs@.subrange(field_end + 1, to as int));
                let tail = split_on(cs@.subrange(field_end + 1, to as int), '/');
                assert(field_list == seq![field] + tail);
                assert((seq![field] + tail).drop_first() =~= tail);
                assert((seq![field] + tail)[0] == field);
                if cut > a {
                    assert(candidates_of(field_list) == seq![candidate_of(field)] + candidates_of(tail));
                    assert(candidates.deep_view() + candidates_of(tail) =~= before + candidates_of(field_list));
                } else {
                    assert(candidates_of(field_list) == candidates_of(tail));
                }
            }
            pos = field_end + 1;
        } else {
            proof {
                let sub = cs@.subrange(pos as int, to as int);
                assert(field =~= sub);
                assert(field_list == seq![field]);
                assert(seq![field].drop_first() =~= seq![]);
                assert(candidates_of(seq![field].drop_first()) =~= seq![]);
                if cut > a {
                    assert(candidates_of(field_list) =~= seq![candidate_of(field)]);
                    assert(candidates.deep_view() =~= before + candidates_of(field_list));
                } else {
                    assert(candidates_of(field_list) =~= seq![]);
                    assert(before + candidates_of(field_list) =~= before);
                }
            }
            done = true;
        }
    }
    if candidates.len() == 0 {
        return None;
    }
    let reading = string_from_chars(&cs[from..space]);
    assert(line.take(space - from) =~= cs@.subrange(from as int, space as int));
    Some((reading, candidates))
}

/// Parses one dictionary line `reading /candidate1/candidate2/.../`;
/// annotations after `;` are dropped.
pub fn parse_entry(line: &str) -> (r: Option<(String, Vec<String>)>)
    ensures
        match r {
            Some(e) => entry_of(line@) == Some((e.0@, e.1.deep_view())),
            None => entry_of(line@) is None,
        },
{
    let cs = chars_of(line);
    assert(cs@.subrange(0, cs@.len() as int) =~= line@);
    parse_entry_in(&cs, 0, cs.len())
}

/// The line that opens the okuri-ari section.
pub open spec fn okuri_ari_marker() -> Seq<char> {
    seq![';', ';', ' ', 'o', 'k', 'u', 'r', 'i', '-', 'a', 'r', 'i']
}

/// The line that opens the okuri-nasi section.
pub open spec fn okuri_nasi_marker() -> Seq<char> {
    seq![';', ';', ' ', 'o', 'k', 'u', 'r', 'i', '-', 'n', 'a', 's', 'i']
}

/// The tables read so far, and whether the current section is okuri-ari.
pub type LoadState = (Map<Seq<char>, Seq<Seq<char>>>, Map<Seq<char>, Seq<Seq<char>>>, bool);

/// Reads one line: a section marker switches sections, other lines starting
/// with `;` and empty lines are skipped, an entry goes to the current
/// section's table.
pub open spec fn load_line(st: LoadState, line: Seq<char>) -> LoadState {
    if line.len() == 0 {
        st
    } else if line.len() >= okuri_ari_marker().len() && line.take(okuri_ari_marker().len() as int)
        == okuri_ari_marker() {
        (st.0, st.1, true)
    } else if line.len() >= okuri_nasi_marker().len() && line.take(
        okuri_nasi_marker().len() as int,
    ) == okuri_nasi_marker() {
        (st.0, st.1, false)
    } else if line[0] == ';' {
        st
    } else {
        match entry_of(line) {
            Some(e) => if st.2 {
                (st.0, st.1.insert(e.0, e.1), true)
            } else {
                (st.0.insert(e.0, e.1), st.1, false)
            },
            None => st,
        }
    }
}

/// Reads the lines in order.
pub open spec fn load_lines(st: LoadState, lines: Seq<Seq<char>>) -> LoadState
    decreases lines.len(),
{
    if lines.len() == 0 {
        st
    } else {
        load_lines(load_line(st, lines[0]), lines.drop_first())
    }
}

/// The tables that the text of a dictionary file describes; the file starts
/// in the okuri-ari section.
pub open spec fn loaded(text: Seq<char>) -> LoadState {
    load_lines(
        (Map::<Seq<char>, Seq<Seq<char>>>::empty(), Map::<Seq<char>, Seq<Seq<char>>>::empty(), true),
        lines_of(text),
    )
}

impl Dictionary {
    /// Reads one line of `cs[from..to]` into the current section.
    fn load_line_in(&mut self, cs: &Vec<char>, from: usize, to: usize, in_okuri_ari: bool) -> (r: bool)
        requires
            old(self).wf(),
            from <= to <= cs@.len(),
        ensures
            final(self).wf(),
            (final(self).nasi(), final(self).ari(), r) == load_line(
                (old(self).nasi(), old(self).ari(), in_okuri_ari),
                cs@.subrange(from as int, to as int),
            ),
    {
        let ghost line = cs@.subrange(from as int, to as int);
        if from == to {
            return in_okuri_ari;
        }
        let ari_marker = vec![';', ';', ' ', 'o', 'k', 'u', 'r', 'i', '-', 'a', 'r', 'i'];
        let nasi_marker = vec![';', ';', ' ', 'o', 'k', 'u', 'r', 'i', '-', 'n', 'a', 's', 'i'];
        assert(ari_marker@ =~= okuri_ari_marker());
        assert(nasi_marker@ =~= okuri_nasi_marker());
        if starts_with_in(cs, from, to, &ari_marker) {
            assert(line.take(okuri_ari_marker().len() as int) =~= cs@.subrange(from as int, from + 12));
            return true;
        }
        assert(line.len() >= okuri_ari_marker().len() ==> line.take(okuri_ari_marker().len() as int)
            =~= cs@.subrange(from as int, from + 12));
        if starts_with_in(cs, from, to, &nasi_marker) {
            assert(line.take(okuri_nasi_marker().len() as int) =~= cs@.subrange(from as int, from + 13));
            return false;
        }
        assert(line.len() >= okuri_nasi_marker().len() ==> line.take(okuri_nasi_marker().len() as int)
            =~= cs@.subrange(from as int, from + 13));
        if cs[from] == ';' {
            return in_okuri_ari;
        }
        match parse_entry_in(cs, from, to) {
            Some((reading, candidates)) => {
                if in_okuri_ari {
                    self.insert_okuri_ari(reading, candidates);
                } else {
                    self.insert(reading, candidates);
                }
            },
            None => {},
        }
        in_okuri_ari
    }

    /// Builds a dictionary from the text of an SKK dictionary file: entries
    /// `reading /candidate1/candidate2/.../`, one per line, in an okuri-ari
    /// section (the start of the file, or after `;; okuri-ari`) or an
    /// okuri-nasi section (after `;; okuri-nasi`); other lines starting with
    /// `;` are comments.
    pub fn from_text(text: &str) -> (d: Dictionary)
        ensures
            d.wf(),
            d.nasi() == loaded(text@).0,
            d.ari() == loaded(text@).1,
    {
        let cs = chars_of(text);
        let n = cs.len();
        let mut dict = Dictionary::new();
        let mut in_okuri_ari = true;
        let mut pos: usize = 0;
        let mut done = false;
        assert(cs@.subrange(0, n as int) =~= text@);
        while !done
            invariant
                n == cs@.len(),
                pos <= n,
                dict.wf(),
                !done ==> load_lines((dict.nasi(), dict.ari(), in_okuri_ari), lines_of(cs@.subrange(pos as int, n as int)))
                    == loaded(text@),
                done ==> (dict.nasi(), dict.ari(), in_okuri_ari) == loaded(text@),
            decreases n - pos + (if done { 0int } else { 1int }),
        {
            let ghost sub = cs@.subrange(pos as int, n as int);
            let ghost st = (dict.nasi(), dict.ari(), in_okuri_ari);
            match find_in(&cs, pos, n, '\n') {
                Some(j) => {
                    let end = if j > pos && cs[j - 1] == '\r' {
                        j - 1
                    } else {
                        j
                    };
                    proof {
                        assert(sub.take(j - pos) =~= cs@.subrange(pos as int, j as int));
                        assert(strip_cr(cs@.subrange(pos as int, j as int)) =~= cs@.subrange(pos as int, end as int));
                        assert(sub.skip(j - pos + 1) =~= cs@.subrange(j + 1, n as int));
                    }
                    in_okuri_ari = dict.load_line_in(&cs, pos, end, in_okuri_ari);
                    proof {
                        let line = cs@.subrange(pos as int, end as int);
                        let tail = lines_of(cs@.subrange(j + 1, n as int));
                        assert(lines_of(sub) == seq![line] + tail);
                        assert((seq![line] + tail)[0] == line);
                        assert((seq![line] + tail).drop_first() =~= tail);
                    }
                    pos = j + 1;
                },
                None => {
                    if pos < n {
                        in_okuri_ari = dict.load_line_in(&cs, pos, n, in_okuri_ari);
                        proof {
                            assert(lines_of(sub) == seq![sub]);
                            assert(seq![sub][0] == sub);
                            assert(seq![sub].drop_first() =~= seq![]);
                            assert(load_lines(load_line(st, sub), seq![sub].drop_first()) == load_line(st, sub));
                            assert(load_lines(st, lines_of(sub)) == load_line(st, sub));
                        }
                    } else {
                        assert(lines_of(sub) =~= seq![]);
                        assert(load_lines(st, lines_of(sub)) == st);
                    }
                    done = true;
                },
            }
        }
        dict
    }
}

/// What `encoding_rs::UTF_8.decode` gives for a byte string: the text, the
/// name of the encoding used (a byte order mark may select another), and
/// whether malformed sequences were replaced.
pub uninterp spec fn utf8_decoding(b: Seq<u8>) -> (Seq<char>, Seq<char>, bool);

/// What `encoding_rs::EUC_JP.decode` gives for a byte string, as above.
pub uninterp spec fn euc_jp_decoding(b: Seq<u8>) -> (Seq<char>, Seq<char>, bool);

/// Relies on `encoding_rs::Encoding::decode` with `UTF_8`, and on
/// `Encoding::name` for the encoding it reports. `decode` panics only when
/// the size of its output buffer overflows `usize`, which the bound on the
/// input rules out.
#[verifier::external_body]
fn decode_as_utf8(bytes: &[u8]) -> (r: (String, String, bool))
    requires
        bytes@.len() <= usize::MAX / 4,
    ensures
        (r.0@, r.1@, r.2) == utf8_decoding(bytes@),
{
    let (text, encoding, had_errors) = encoding_rs::UTF_8.decode(bytes);
    (text.into_owned(), encoding.name().to_string(), had_errors)
}

/// Relies on `encoding_rs::Encoding::decode` with `EUC_JP`, and on
/// `Encoding::name` for the encoding it reports; it panics only as above.
#[verifier::external_body]
fn decode_as_euc_jp(bytes: &[u8]) -> (r: (String, String, bool))
    requires
        bytes@.len() <= usize::MAX / 4,
    ensures
        (r.0@, r.1@, r.2) == euc_jp_decoding(bytes@),
{
    let (text, encoding, had_errors) = encoding_rs::EUC_JP.decode(bytes);
    (text.into_owned(), encoding.name().to_string(), had_errors)
}

/// Decodes the bytes of a dictionary file: as UTF-8 when that succeeds
/// without replacement, else as EUC-JP. Returns the text and the name of
/// the encoding used. The input is bounded so that the decoded text
/// always fits in memory.
pub fn decode_content(bytes: &[u8]) -> (r: (String, String))
    requires
        bytes@.len() <= usize::MAX / 4,
    ensures
        !utf8_decoding(bytes@).2 ==> r.0@ == utf8_decoding(bytes@).0 && r.1@ == utf8_decoding(
            bytes@,
        ).1,
        utf8_decoding(bytes@).2 ==> r.0@ == euc_jp_decoding(bytes@).0 && r.1@ == euc_jp_decoding(
            bytes@,
        ).1,
{
    let (text, encoding, had_errors) = decode_as_utf8(bytes);
    if !had_errors {
        return (text, encoding);
    }
    let (text, encoding, _) = decode_as_euc_jp(bytes);
    (text, encoding)
}

/// The errors of loading a dictionary.
#[derive(Debug, Clone, PartialEq, Eq)]
pub enum DictionaryError {
    /// The file could not be read.
    Io(String),
    /// The file could not be parsed.
    Parse(String),
}

impl DictionaryError {
    /// A readable description of the error.
    pub fn message(&self) -> (r: String)
        ensures
            r@ == match self {
                DictionaryError::Io(e) => "IO error: "@ + e@,
                DictionaryError::Parse(e) => "Parse error: "@ + e@,
            },
    {
        let (mut s, detail) = match self {
            DictionaryError::Io(e) => (String::from_str("IO error: "), e),
            DictionaryError::Parse(e) => (String::from_str("Parse error: "), e),
        };
        s.append(detail.as_str());
        s
    }
}

} // verus!
