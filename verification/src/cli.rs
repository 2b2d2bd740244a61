//! What the command line tool decides: its settings, the commands of its prompt, and the operations
//! of its benchmark.
use crate::config::{default_config, CompressionType, Config};
use vstd::prelude::*;

verus! {

/// A command of the prompt.
#[derive(Debug, Clone, Copy, PartialEq, Eq, Structural)]
pub enum Command {
    Put,
    Get,
    Delete,
    Scan,
    Stats,
    Quit,
    /// The command needs other arguments; the text says which.
    Usage(Usage),
    Unknown,
}

/// The commands that need arguments.
#[derive(Debug, Clone, Copy, PartialEq, Eq, Structural)]
pub enum Usage {
    Put,
    Get,
    Delete,
    Scan,
}

/// The command that `words` words make whose first, in capitals, is `verb`.
pub open spec fn command_of(verb: Seq<char>, words: nat) -> Command {
    if verb == "PUT"@ {
        if words == 3 {
            Command::Put
        } else {
            Command::Usage(Usage::Put)
        }
    } else if verb == "GET"@ {
        if words == 2 {
            Command::Get
        } else {
            Command::Usage(Usage::Get)
        }
    } else if verb == "DELETE"@ {
        if words == 2 {
            Command::Delete
        } else {
            Command::Usage(Usage::Delete)
        }
    } else if verb == "SCAN"@ {
        if words == 3 {
            Command::Scan
        } else {
            Command::Usage(Usage::Scan)
        }
    } else if verb == "STATS"@ {
        Command::Stats
    } else if verb == "QUIT"@ || verb == "EXIT"@ {
        Command::Quit
    } else {
        Command::Unknown
    }
}

/// Whether two texts are the same.
fn same_text(a: &str, b: &str) -> (r: bool)
    ensures
        r == (a@ == b@),
{
    let left = a.to_string();
    let right = b.to_string();
    left == right
}

/// The command that `words` words make whose first, in capitals, is `verb`.
pub fn interpret(verb: &str, words: usize) -> (r: Command)
    ensures
        r == command_of(verb@, words as nat),
{
    if same_text(verb, "PUT") {
        if words == 3 {
            Command::Put
        } else {
            Command::Usage(Usage::Put)
        }
    } else if same_text(verb, "GET") {
        if words == 2 {
            Command::Get
        } else {
            Command::Usage(Usage::Get)
        }
    } else if same_text(verb, "DELETE") {
        if words == 2 {
            Command::Delete
        } else {
            Command::Usage(Usage::Delete)
        }
    } else if same_text(verb, "SCAN") {
        if words == 3 {
            Command::Scan
        } else {
            Command::Usage(Usage::Scan)
        }
    } else if same_text(verb, "STATS") {
        Command::Stats
    } else if same_text(verb, "QUIT") || same_text(verb, "EXIT") {
        Command::Quit
    } else {
        Command::Unknown
    }
}

/// Whether a character is white space, as Unicode says.
pub uninterp spec fn white_space(c: char) -> bool;

/// `char::is_whitespace`: a function of the character. Of the characters of ASCII it holds of the
/// space and of those from the tab to the carriage return.
pub assume_specification[ char::is_whitespace ](c: char) -> (r: bool)
    ensures
        r == white_space(c),
        (c as u32) < 128 ==> r == (c == ' ' || 9 <= c as u32 <= 13),
;

/// A text in capitals, as Unicode says.
pub uninterp spec fn in_capitals(s: Seq<char>) -> Seq<char>;

/// Whether all characters are of ASCII.
pub open spec fn plain(s: Seq<char>) -> bool {
    forall|i: int| 0 <= i < s.len() ==> (#[trigger] s[i] as u32) < 128
}

/// A character of ASCII in capitals.
pub open spec fn capital(c: char) -> char {
    if 'a' <= c <= 'z' {
        (c as u32 - 32) as char
    } else {
        c
    }
}

/// `str::to_uppercase`: a function of the text. Where all characters are of ASCII it puts the letters
/// from `a` to `z` in capitals, and keeps the others.
#[verifier::external_body]
fn to_capitals(s: &str) -> (r: String)
    ensures
        r@ == in_capitals(s@),
        plain(s@) ==> r@ == s@.map_values(|c: char| capital(c)),
{
    s.to_uppercase()
}

/// The words of a text that end in it, and the one that it ends with, if any.
pub open spec fn splitting(s: Seq<char>) -> (Seq<Seq<char>>, Seq<char>)
    decreases s.len(),
{
    if s.len() == 0 {
        (Seq::empty(), Seq::empty())
    } else {
        let (ended, open) = splitting(s.drop_last());
        if !white_space(s.last()) {
            (ended, open.push(s.last()))
        } else if open.len() > 0 {
            (ended.push(open), Seq::empty())
        } else {
            (ended, open)
        }
    }
}

/// The words of a text: its longest parts without white space.
pub open spec fn words_of(s: Seq<char>) -> Seq<Seq<char>> {
    let (ended, open) = splitting(s);
    if open.len() > 0 {
        ended.push(open)
    } else {
        ended
    }
}

/// Texts, one behind the other.
pub open spec fn glued(words: Seq<Seq<char>>) -> Seq<char>
    decreases words.len(),
{
    if words.len() == 0 {
        Seq::empty()
    } else {
        glued(words.drop_last()) + words.last()
    }
}

/// A text without its white space.
pub open spec fn without_space(s: Seq<char>) -> Seq<char>
    decreases s.len(),
{
    if s.len() == 0 {
        Seq::empty()
    } else if white_space(s.last()) {
        without_space(s.drop_last())
    } else {
        without_space(s.drop_last()).push(s.last())
    }
}

/// Law: splitting a text into words loses nothing but white space: no word is empty or has any, and
/// together they are the rest of the text.
pub proof fn law_words_keep_text(s: Seq<char>)
    ensures
        glued(words_of(s)) == without_space(s),
        forall|i: int| 0 <= i < words_of(s).len() ==> (#[trigger] words_of(s)[i]).len() > 0,
        forall|i: int, j: int|
            0 <= i < words_of(s).len() && 0 <= j < words_of(s)[i].len() ==> !white_space(
                #[trigger] words_of(s)[i][j],
            ),
{
    lemma_splitting(s);
    let (ended, open) = splitting(s);
    if open.len() > 0 {
        assert(ended.push(open).drop_last() =~= ended);
    } else {
        assert(glued(ended) + open =~= glued(ended));
    }
}

proof fn lemma_splitting(s: Seq<char>)
    ensures
        ({
            let (ended, open) = splitting(s);
            &&& glued(ended) + open == without_space(s)
            &&& forall|i: int| 0 <= i < ended.len() ==> (#[trigger] ended[i]).len() > 0
            &&& forall|i: int, j: int|
                0 <= i < ended.len() && 0 <= j < ended[i].len() ==> !white_space(
                    #[trigger] ended[i][j],
                )
            &&& forall|j: int| 0 <= j < open.len() ==> !white_space(#[trigger] open[j])
        }),
    decreases s.len(),
{
    let (ended, open) = splitting(s);
    if s.len() == 0 {
        assert(glued(ended) + open =~= without_space(s));
    } else {
        lemma_splitting(s.drop_last());
        let (before, part) = splitting(s.drop_last());
        if !white_space(s.last()) {
            assert(glued(before) + part.push(s.last()) =~= (glued(before) + part).push(s.last()));
        } else if part.len() > 0 {
            assert(ended.drop_last() =~= before);
            assert(glued(ended) + open =~= glued(before) + part);
        }
    }
}

/// The characters of some texts.
pub open spec fn texts(s: Seq<String>) -> Seq<Seq<char>> {
    s.map_values(|t: String| t@)
}

/// The words of a text, which white space separates.
pub fn split_words(line: &str) -> (r: Vec<String>)
    ensures
        texts(r@) == words_of(line@),
{
    let ghost s = line@;
    let len: usize = line.unicode_len();
    let mut words: Vec<String> = Vec::new();
    let mut start: usize = 0;
    let mut at: usize = 0;
    proof {
        assert(s.take(0) =~= Seq::empty());
        assert(texts(words@) =~= Seq::empty());
        assert(s.subrange(0, 0) =~= Seq::empty());
    }
    for c in iter: line.chars()
        invariant
            s == line@,
            len == s.len(),
            iter.seq() == s,
            at == iter.index(),
            start <= at <= len,
            splitting(s.take(at as int)) == (
                texts(words@),
                s.subrange(start as int, at as int),
            ),
    {
        proof {
            assert(s.take(at + 1).drop_last() =~= s.take(at as int));
            assert(s.take(at + 1).last() == c);
        }
        let ghost open = s.subrange(start as int, at as int);
        let ghost ended = texts(words@);
        if c.is_whitespace() {
            if start < at {
                let word = line.substring_char(start, at).to_string();
                words.push(word);
                assert(texts(words@) =~= ended.push(open));
            }
            at = at + 1;
            start = at;
            assert(s.subrange(start as int, at as int) =~= Seq::empty());
            assert(open.len() == 0 ==> open =~= Seq::empty());
        } else {
            at = at + 1;
            assert(s.subrange(start as int, at as int) =~= open.push(c));
        }
    }
    assert(s.take(at as int) =~= s);
    if start < at {
        let ghost ended = texts(words@);
        let word = line.substring_char(start, at).to_string();
        words.push(word);
        assert(texts(words@) =~= ended.push(s.subrange(start as int, at as int)));
    }
    words
}

/// The command that a line of the prompt makes, and its words; none where the line is blank. The
/// first word says which command it is, in capitals or not.
pub fn parse_line(line: &str) -> (r: Option<(Command, Vec<String>)>)
    ensures
        ({
            let words = words_of(line@);
            match r {
                Some((command, parts)) => {
                    &&& words.len() > 0
                    &&& texts(parts@) == words
                    &&& command == command_of(in_capitals(words[0]), words.len())
                    &&& plain(words[0]) ==> command == command_of(
                        words[0].map_values(|c: char| capital(c)),
                        words.len(),
                    )
                },
                None => words.len() == 0,
            }
        }),
{
    let parts = split_words(line);
    if parts.len() == 0 {
        return None;
    }
    assert(texts(parts@)[0] == parts@[0]@);
    let verb = to_capitals(parts[0].as_str());
    let command = interpret(verb.as_str(), parts.len());
    Some((command, parts))
}

impl Usage {
    /// What the user is told.
    pub open spec fn hint(self) -> Seq<char> {
        match self {
            Usage::Put => "Usage: PUT <key> <value>"@,
            Usage::Get => "Usage: GET <key>"@,
            Usage::Delete => "Usage: DELETE <key>"@,
            Usage::Scan => "Usage: SCAN <key> <value>"@,
        }
    }

    /// What the user is told.
    pub fn text(&self) -> (r: &'static str)
        ensures
            r@ == self.hint(),
    {
        match self {
            Usage::Put => "Usage: PUT <key> <value>",
            Usage::Get => "Usage: GET <key>",
            Usage::Delete => "Usage: DELETE <key>",
            Usage::Scan => "Usage: SCAN <key> <value>",
        }
    }
}

/// The bytes of a megabyte.
pub const MEGABYTE: usize = 0x10_0000;

/// The settings that the options of the tool ask for.
pub fn config_for(memtable_megabytes: usize, no_compression: bool, threads: usize) -> (r: Config)
    requires
        memtable_megabytes * MEGABYTE <= usize::MAX,
    ensures
        r == (Config {
            memtable_size_threshold: (memtable_megabytes * MEGABYTE) as usize,
            compression: if no_compression {
                CompressionType::Uncompressed
            } else {
                CompressionType::Lz4
            },
            ..default_config(threads)
        }),
{
    Config::new(threads).with_memtable_size(memtable_megabytes * MEGABYTE).with_compression(
        if no_compression {
            CompressionType::Uncompressed
        } else {
            CompressionType::Lz4
        },
    )
}

/// A number in decimal digits, as bytes.
pub open spec fn decimal_bytes(n: nat) -> Seq<u8>
    decreases n,
{
    if n < 10 {
        seq![(48 + n) as u8]
    } else {
        decimal_bytes(n / 10).push((48 + n % 10) as u8)
    }
}

/// A number in ten decimal digits at least, as bytes.
pub open spec fn ten_digits(n: nat) -> Seq<u8> {
    let digits = decimal_bytes(n);
    Seq::new(
        if digits.len() < 10 {
            (10 - digits.len()) as nat
        } else {
            0
        },
        |i: int| 48u8,
    ) + digits
}

/// The first `size` bytes of `s`, filled up with `fill`.
pub open spec fn resized(s: Seq<u8>, size: nat, fill: u8) -> Seq<u8> {
    Seq::new(
        size,
        |i: int|
            if i < s.len() {
                s[i]
            } else {
                fill
            },
    )
}

/// The sixteen bytes that a value is filled up with, over and over.
pub open spec fn pattern_byte(i: int) -> u8 {
    if i % 16 < 10 {
        (48 + i % 16) as u8
    } else {
        (87 + i % 16) as u8
    }
}

/// The first `size` bytes of `s`, filled up with the pattern.
pub open spec fn patterned(s: Seq<u8>, size: nat) -> Seq<u8> {
    Seq::new(
        size,
        |i: int|
            if i < s.len() {
                s[i]
            } else {
                pattern_byte(i - s.len())
            },
    )
}

fn push_decimal_bytes(out: &mut Vec<u8>, n: u64)
    ensures
        final(out)@ == old(out)@ + decimal_bytes(n as nat),
    decreases n,
{
    if n >= 10 {
        push_decimal_bytes(out, n / 10);
    }
    out.push(48 + (n % 10) as u8);
    assert(out@ =~= old(out)@ + decimal_bytes(n as nat));
}

fn push_ten_digits(out: &mut Vec<u8>, n: u64)
    ensures
        final(out)@ == old(out)@ + ten_digits(n as nat),
{
    let mut digits: Vec<u8> = Vec::new();
    push_decimal_bytes(&mut digits, n);
    assert(digits@ =~= decimal_bytes(n as nat));
    let len: usize = digits.len();
    let mut i: usize = len;
    while i < 10
        invariant
            len <= i,
            i <= 10 || i == len,
            out@ == old(out)@ + Seq::new((i - len) as nat, |k: int| 48u8),
        decreases 10 - i,
    {
        out.push(48);
        assert(out@ =~= old(out)@ + Seq::new((i + 1 - len) as nat, |k: int| 48u8));
        i = i + 1;
    }
    out.extend_from_slice(digits.as_slice());
    assert(out@ =~= old(out)@ + ten_digits(n as nat));
}

/// The key with number `id`, `size` bytes long: "key" and the number in ten digits.
pub open spec fn key_of(id: nat, size: nat) -> Seq<u8> {
    resized(seq![107u8, 101u8, 121u8] + ten_digits(id), size, 48)
}

/// The key with number `id`, `size` bytes long.
pub fn generate_key(id: usize, size: usize) -> (r: Vec<u8>)
    ensures
        r@ == key_of(id as nat, size as nat),
{
    let mut key: Vec<u8> = Vec::new();
    // "key"
    key.push(107);
    key.push(101);
    key.push(121);
    assert(key@ =~= seq![107u8, 101u8, 121u8]);
    push_ten_digits(&mut key, id as u64);
    key.resize(size, 48);
    assert(key@ =~= key_of(id as nat, size as nat));
    key
}

/// The value with number `id`, `size` bytes long.
pub fn generate_value(id: usize, size: usize) -> (r: Vec<u8>)
    ensures
        r@ == patterned(
            seq![118u8, 97u8, 108u8, 117u8, 101u8] + ten_digits(id as nat),
            size as nat,
        ),
{
    let mut value: Vec<u8> = Vec::new();
    // "value"
    value.push(118);
    value.push(97);
    value.push(108);
    value.push(117);
    value.push(101);
    assert(value@ =~= seq![118u8, 97u8, 108u8, 117u8, 101u8]);
    push_ten_digits(&mut value, id as u64);
    let ghost base = value@;
    let mut i: usize = 0;
    while value.len() < size
        invariant
            value@.len() == base.len() + i,
            i < 16 || value@.len() <= size,
            forall|k: int| 0 <= k < base.len() ==> value@[k] == base[k],
            forall|k: int|
                base.len() <= k < value@.len() ==> value@[k] == pattern_byte(k - base.len()),
        decreases size - value@.len(),
    {
        let at: u8 = (i % 16) as u8;
        value.push(
            if at < 10 {
                48 + at
            } else {
                87 + at
            },
        );
        i = i + 1;
    }
    value.truncate(size);
    assert(value@ =~= patterned(base, size as nat));
    value
}

/// What the benchmark does next.
#[derive(Debug)]
pub enum BenchStep {
    /// A key is read whose number is drawn from those below this one.
    Read { below: usize },
    /// A key with this number is written.
    Write { id: usize, key: Vec<u8>, value: Vec<u8> },
}

/// What the benchmark has counted.
#[derive(Debug, Clone, Copy, PartialEq, Eq, Structural)]
pub struct BenchCounters {
    pub read_ops: usize,
    pub write_ops: usize,
    pub read_hits: usize,
}

/// The number of entries that the benchmark writes before it begins.
pub fn populate_count(operations: usize) -> (r: usize)
    ensures
        r == operations / 10,
{
    operations / 10
}

/// What the benchmark does after `done` operations, for a roll of a hundred-sided die: it reads one
/// of the keys that are there, or writes the next one. The bytes of the value are those of a key.
pub fn bench_step(
    populated: usize,
    done: usize,
    roll: usize,
    read_percentage: usize,
    key_size: usize,
    value_size: usize,
) -> (r: BenchStep)
    requires
        populated + done <= usize::MAX,
    ensures
        match r {
            BenchStep::Read { below } => roll < read_percentage && below == populated + done,
            BenchStep::Write { id, key, value } => {
                &&& roll >= read_percentage
                &&& id == populated + done
                &&& key@ == key_of(id as nat, key_size as nat)
                &&& value@ == key_of(id as nat, value_size as nat)
            },
        },
{
    let id: usize = populated + done;
    if roll < read_percentage {
        BenchStep::Read { below: id }
    } else {
        BenchStep::Write {
            id,
            key: generate_key(id, key_size),
            value: generate_key(id, value_size),
        }
    }
}

impl BenchCounters {
    pub fn new() -> (r: Self)
        ensures
            r == (BenchCounters { read_ops: 0, write_ops: 0, read_hits: 0 }),
    {
        BenchCounters { read_ops: 0, write_ops: 0, read_hits: 0 }
    }

    /// Counts an operation, and whether it was a read that found something.
    pub fn counted(self, step: &BenchStep, found: bool) -> (r: Self)
        requires
            self.read_ops < usize::MAX,
            self.write_ops < usize::MAX,
            self.read_hits < usize::MAX,
        ensures
            r == (match *step {
                BenchStep::Read { .. } => BenchCounters {
                    read_ops: (self.read_ops + 1) as usize,
                    read_hits: if found {
                        (self.read_hits + 1) as usize
                    } else {
                        self.read_hits
                    },
                    ..self
                },
                BenchStep::Write { .. } => BenchCounters {
                    write_ops: (self.write_ops + 1) as usize,
                    ..self
                },
            }),
    {
        match step {
            BenchStep::Read { .. } => {
                if found {
                    BenchCounters {
                        read_ops: self.read_ops + 1,
                        read_hits: self.read_hits + 1,
                        ..self
                    }
                } else {
                    BenchCounters { read_ops: self.read_ops + 1, ..self }
                }
            },
            BenchStep::Write { .. } => BenchCounters { write_ops: self.write_ops + 1, ..self },
        }
    }
}

/// Whether the benchmark reports after `done` of `operations` operations: at every tenth of them.
pub fn reports_progress(done: usize, operations: usize) -> (r: bool)
    requires
        operations >= 10,
    ensures
        r == (done % (operations / 10) == 0),
{
    done % (operations / 10) == 0
}

/// Law: words are separated by white space, and by nothing else: a text without white space is one
/// word, a text of white space alone has none, and where two texts meet at white space, the words of
/// both together are those of the one and then those of the other.
pub proof fn law_white_space_alone_separates(a: Seq<char>, b: Seq<char>)
    ensures
        a.len() > 0 && (forall|i: int| 0 <= i < a.len() ==> !white_space(#[trigger] a[i]))
            ==> words_of(a) == seq![a],
        (forall|i: int| 0 <= i < a.len() ==> white_space(#[trigger] a[i])) ==> words_of(a).len()
            == 0,
        a.len() == 0 || b.len() == 0 || white_space(a.last()) || white_space(b[0]) ==> words_of(
            a + b,
        ) == words_of(a) + words_of(b),
{
    if forall|i: int| 0 <= i < a.len() ==> !white_space(#[trigger] a[i]) {
        lemma_one_word(a);
        if a.len() > 0 {
            assert(words_of(a) =~= seq![a]);
        }
    }
    if forall|i: int| 0 <= i < a.len() ==> white_space(#[trigger] a[i]) {
        lemma_no_word(a);
    }
    if a.len() == 0 || b.len() == 0 || white_space(a.last()) || white_space(b[0]) {
        lemma_words_meet(a, b);
    }
}

/// Law: a longest part of a text without white space is a word, with the words before it and the
/// words behind it around it: neighbours that are no white space stand in one word, and what white
/// space parts stands in two.
pub proof fn law_longest_part_is_a_word(s: Seq<char>, from: int, to: int)
    requires
        0 <= from < to <= s.len(),
        forall|i: int| from <= i < to ==> !white_space(#[trigger] s[i]),
        from == 0 || white_space(s[from - 1]),
        to == s.len() || white_space(s[to]),
    ensures
        words_of(s) == words_of(s.take(from)).push(s.subrange(from, to)) + words_of(s.skip(to)),
{
    let a = s.take(from);
    let word = s.subrange(from, to);
    let b = s.skip(to);
    assert(s =~= (a + word) + b);
    assert forall|i: int| 0 <= i < word.len() implies !white_space(#[trigger] word[i]) by {
        assert(word[i] == s[from + i]);
    }
    law_white_space_alone_separates(word, b);
    law_white_space_alone_separates(a, word);
    law_white_space_alone_separates(a + word, b);
    assert(words_of(a) + seq![word] =~= words_of(a).push(word));
}

proof fn lemma_one_word(s: Seq<char>)
    requires
        forall|i: int| 0 <= i < s.len() ==> !white_space(#[trigger] s[i]),
    ensures
        splitting(s) == (Seq::<Seq<char>>::empty(), s),
    decreases s.len(),
{
    if s.len() > 0 {
        let t = s.drop_last();
        assert forall|i: int| 0 <= i < t.len() implies !white_space(#[trigger] t[i]) by {
            assert(t[i] == s[i]);
        }
        lemma_one_word(t);
        assert(s[s.len() - 1] == s.last());
        assert(t.push(s.last()) =~= s);
    } else {
        assert(s =~= Seq::empty());
    }
}

proof fn lemma_no_word(s: Seq<char>)
    requires
        forall|i: int| 0 <= i < s.len() ==> white_space(#[trigger] s[i]),
    ensures
        splitting(s) == (Seq::<Seq<char>>::empty(), Seq::<char>::empty()),
    decreases s.len(),
{
    if s.len() > 0 {
        let t = s.drop_last();
        assert forall|i: int| 0 <= i < t.len() implies white_space(#[trigger] t[i]) by {
            assert(t[i] == s[i]);
        }
        lemma_no_word(t);
        assert(s[s.len() - 1] == s.last());
    }
}

/// Behind a text in which no word is open, splitting begins anew.
proof fn lemma_splitting_concat(a: Seq<char>, b: Seq<char>)
    requires
        splitting(a).1.len() == 0,
    ensures
        splitting(a + b) == (splitting(a).0 + splitting(b).0, splitting(b).1),
    decreases b.len(),
{
    if b.len() == 0 {
        assert(a + b =~= a);
        assert(splitting(a).0 + Seq::<Seq<char>>::empty() =~= splitting(a).0);
        assert(splitting(a).1 =~= Seq::empty());
    } else {
        let t = b.drop_last();
        lemma_splitting_concat(a, t);
        assert((a + b).drop_last() =~= a + t);
        assert((a + b).last() == b.last());
        let (ended, open) = splitting(t);
        assert(splitting(a).0 + ended.push(open) =~= (splitting(a).0 + ended).push(open));
    }
}

proof fn lemma_words_meet(a: Seq<char>, b: Seq<char>)
    requires
        a.len() == 0 || b.len() == 0 || white_space(a.last()) || white_space(b[0]),
    ensures
        words_of(a + b) == words_of(a) + words_of(b),
{
    if b.len() == 0 {
        assert(a + b =~= a);
        assert(words_of(a) + words_of(b) =~= words_of(a));
    } else if splitting(a).1.len() == 0 {
        lemma_splitting_concat(a, b);
        let (ended, open) = splitting(b);
        assert(splitting(a).0 + ended.push(open) =~= (splitting(a).0 + ended).push(open));
    } else {
        assert(white_space(b[0]));
        let c = a.push(b[0]);
        let rest = b.drop_first();
        assert(c.drop_last() =~= a);
        assert(c + rest =~= a + b);
        lemma_splitting_concat(c, rest);
        let first = seq![b[0]];
        assert(first.drop_last() =~= Seq::empty());
        assert(splitting(first.drop_last()) == (
            Seq::<Seq<char>>::empty(),
            Seq::<char>::empty(),
        ));
        assert(splitting(first) == (Seq::<Seq<char>>::empty(), Seq::<char>::empty()));
        assert(first + rest =~= b);
        lemma_splitting_concat(first, rest);
        assert(splitting(b).0 =~= splitting(rest).0);
        let (ended, open) = splitting(rest);
        assert(words_of(a) + ended.push(open) =~= (words_of(a) + ended).push(open));
        assert(words_of(a) + ended =~= splitting(c).0 + ended);
    }
}

/// Law: each command is made by its own verb with exactly as many words as it takes; with any other
/// number of words the verb makes the hint, and any other verb is not known.
pub proof fn law_verbs_make_commands(verb: Seq<char>, words: nat)
    ensures
        command_of(verb, words) == Command::Put <==> verb == "PUT"@ && words == 3,
        command_of(verb, words) == Command::Get <==> verb == "GET"@ && words == 2,
        command_of(verb, words) == Command::Delete <==> verb == "DELETE"@ && words == 2,
        command_of(verb, words) == Command::Scan <==> verb == "SCAN"@ && words == 3,
        command_of(verb, words) == Command::Usage(Usage::Put) <==> verb == "PUT"@ && words != 3,
        command_of(verb, words) == Command::Usage(Usage::Get) <==> verb == "GET"@ && words != 2,
        command_of(verb, words) == Command::Usage(Usage::Delete) <==> verb == "DELETE"@ && words
            != 2,
        command_of(verb, words) == Command::Usage(Usage::Scan) <==> verb == "SCAN"@ && words != 3,
        command_of(verb, words) == Command::Stats <==> verb == "STATS"@,
        command_of(verb, words) == Command::Quit <==> verb == "QUIT"@ || verb == "EXIT"@,
        command_of(verb, words) == Command::Unknown <==> verb != "PUT"@ && verb != "GET"@ && verb
            != "DELETE"@ && verb != "SCAN"@ && verb != "STATS"@ && verb != "QUIT"@ && verb
            != "EXIT"@,
{
    reveal_strlit("PUT");
    reveal_strlit("GET");
    reveal_strlit("DELETE");
    reveal_strlit("SCAN");
    reveal_strlit("STATS");
    reveal_strlit("QUIT");
    reveal_strlit("EXIT");
    assert("PUT"@.len() == 3 && "GET"@.len() == 3 && "DELETE"@.len() == 6 && "STATS"@.len() == 5);
    assert("SCAN"@.len() == 4 && "QUIT"@.len() == 4 && "EXIT"@.len() == 4);
    assert("PUT"@[0] != "GET"@[0]);
    assert("SCAN"@[0] != "QUIT"@[0] && "SCAN"@[0] != "EXIT"@[0] && "QUIT"@[0] != "EXIT"@[0]);
}

/// Law: the texts of a line are all of its characters, word by word.
pub proof fn law_texts_are_seen_whole(s: Seq<String>)
    ensures
        texts(s).len() == s.len(),
        forall|i: int| 0 <= i < s.len() ==> #[trigger] texts(s)[i] == s[i]@,
{
}

/// Law: the digits of a number are those of its tens, and the one of its ones behind them; with
/// zeros before them they are ten at least.
pub proof fn law_byte_digits_are_those_of_the_tens(n: nat, ones: nat)
    requires
        ones < 10,
    ensures
        decimal_bytes(ones) == seq![(48 + ones) as u8],
        n > 0 ==> decimal_bytes(10 * n + ones) == decimal_bytes(n).push((48 + ones) as u8),
        ({
            let s = ten_digits(n);
            let zeros = s.len() - decimal_bytes(n).len();
            &&& s.len() >= 10
            &&& 0 <= zeros
            &&& zeros == 0 || s.len() == 10
            &&& s.skip(zeros) == decimal_bytes(n)
            &&& forall|i: int| 0 <= i < zeros ==> #[trigger] s[i] == 48
        }),
{
    assert((10 * n + ones) / 10 == n && (10 * n + ones) % 10 == ones);
    let s = ten_digits(n);
    assert(s.skip(s.len() - decimal_bytes(n).len()) =~= decimal_bytes(n));
}

/// Law: the key with a number is as long as it is asked for: "key", the number in ten digits at
/// least, and zeros, as far as there is room.
pub proof fn law_key_begins_with_its_number(id: nat, size: nat, i: int)
    requires
        0 <= i < size,
    ensures
        key_of(id, size).len() == size,
        i == 0 ==> key_of(id, size)[i] == 107,
        i == 1 ==> key_of(id, size)[i] == 101,
        i == 2 ==> key_of(id, size)[i] == 121,
        3 <= i < 3 + ten_digits(id).len() ==> key_of(id, size)[i] == ten_digits(id)[i - 3],
        3 + ten_digits(id).len() <= i ==> key_of(id, size)[i] == 48,
{
}

/// Law: what is made longer keeps what it had and is filled up; what is made shorter loses its end.
pub proof fn law_resizing_keeps_the_front(s: Seq<u8>, size: nat, fill: u8)
    ensures
        resized(s, size, fill).len() == size,
        size <= s.len() ==> resized(s, size, fill) == s.take(size as int),
        size > s.len() ==> resized(s, size, fill).take(s.len() as int) == s,
        forall|i: int| s.len() <= i < size ==> #[trigger] resized(s, size, fill)[i] == fill,
{
    let r = resized(s, size, fill);
    if size <= s.len() {
        assert(r =~= s.take(size as int));
    } else {
        assert(r.take(s.len() as int) =~= s);
    }
}

/// Law: what is filled up with the pattern keeps what it had, and goes on with the sixteen
/// hexadecimal digits over and over.
pub proof fn law_pattern_repeats(s: Seq<u8>, size: nat, i: int)
    ensures
        patterned(s, size).len() == size,
        0 <= i < size && i < s.len() ==> patterned(s, size)[i] == s[i],
        0 <= i < size && s.len() <= i < s.len() + 10 ==> patterned(s, size)[i] == 48 + (i - s.len()),
        0 <= i < size && s.len() + 10 <= i < s.len() + 16 ==> patterned(s, size)[i] == 97 + (i
            - s.len() - 10),
        s.len() <= i && i + 16 < size ==> patterned(s, size)[i + 16] == patterned(s, size)[i],
{
    let k = i - s.len();
    if 0 <= k < 16 {
        assert(k % 16 == k);
    }
    assert((k + 16) % 16 == k % 16);
}

/// Law: a letter from `a` to `z` and its capital are 32 apart; every other character of ASCII is its
/// own capital.
pub proof fn law_capitals_are_below_their_letters(c: char)
    ensures
        'a' <= c <= 'z' ==> capital(c) as int == c as int - 32 && 'A' <= capital(c) <= 'Z',
        !('a' <= c <= 'z') ==> capital(c) == c,
{
}

} // verus!
