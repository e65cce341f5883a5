//! Words as the recognition engine reports them: the engine's command line, its
//! tab-separated output and the lines that the words make up.

use vstd::prelude::*;

use crate::confidence::{confidence_of, parse_confidence};
use crate::model::{copy_text, copy_texts, lemma_views_push, text_of, views};
use crate::number::{decimal, i32_of, lemma_decimal_pair, parse_i32, push_decimal};
use crate::text::{
    blank, chars_of, pieces, push_text, same_chars, slice_chars, split_pieces, stands_at,
    starts_with, string_of, texts, trim, trimmed,
};

verus! {

/// One recognised word, with its confidence and layout position.
#[derive(Debug, PartialEq)]
pub struct Word {
    pub text: String,
    /// Recognition confidence from 0 to 100.
    pub conf: u8,
    pub left: i32,
    pub top: i32,
    pub width: i32,
    pub height: i32,
    /// Reading-order line identity: block, paragraph, line.
    pub line: (i32, i32, i32),
    pub word_num: i32,
}

/// What a [`Word`] stands for.
pub struct WordView {
    pub text: Seq<char>,
    pub conf: u8,
    pub left: i32,
    pub top: i32,
    pub width: i32,
    pub height: i32,
    pub line: (i32, i32, i32),
    pub word_num: i32,
}

impl View for Word {
    type V = WordView;

    open spec fn view(&self) -> WordView {
        WordView {
            text: self.text@,
            conf: self.conf,
            left: self.left,
            top: self.top,
            width: self.width,
            height: self.height,
            line: self.line,
            word_num: self.word_num,
        }
    }
}

impl Clone for Word {
    fn clone(&self) -> (r: Self)
        ensures
            r@ == self@,
    {
        Word {
            text: self.text.clone(),
            conf: self.conf,
            left: self.left,
            top: self.top,
            width: self.width,
            height: self.height,
            line: self.line,
            word_num: self.word_num,
        }
    }
}

/// Half of `n`, rounded towards zero.
pub open spec fn half(n: int) -> int {
    if n >= 0 {
        n / 2
    } else {
        -((-n) / 2)
    }
}

impl WordView {
    /// The vertical centre.
    pub open spec fn center(self) -> int {
        self.top + half(self.height as int)
    }
}

impl Word {
    /// The vertical centre of the word.
    pub fn center_y(&self) -> (y: i32)
        requires
            i32::MIN <= self@.center() <= i32::MAX,
        ensures
            y == self@.center(),
    {
        self.center() as i32
    }

    /// The vertical centre of any word, however far off the screen it is.
    pub(crate) fn center(&self) -> (y: i64)
        ensures
            y == self@.center(),
            -0x1_0000_0000 <= y <= 0x1_0000_0000,
    {
        let h: i64 = self.height as i64;
        let half_height: i64 = if h >= 0 {
            h / 2
        } else {
            -((-h) / 2)
        };
        self.top as i64 + half_height
    }
}

/// Where the recognition engine and its language data are, and how to run it.
#[derive(Debug)]
pub struct OcrConfig {
    pub tesseract_exe: String,
    pub tessdata_dir: String,
    pub lang: String,
    pub psm: u8,
    /// Word lists that bias recognition.
    pub user_words: Vec<String>,
    /// Pattern file that biases recognition.
    pub user_patterns: Option<String>,
}

impl Clone for OcrConfig {
    fn clone(&self) -> (r: Self)
        ensures
            r.tesseract_exe@ == self.tesseract_exe@,
            r.tessdata_dir@ == self.tessdata_dir@,
            r.lang@ == self.lang@,
            r.psm == self.psm,
            views(r.user_words@) == views(self.user_words@),
            text_of(r.user_patterns) == text_of(self.user_patterns),
    {
        OcrConfig {
            tesseract_exe: self.tesseract_exe.clone(),
            tessdata_dir: self.tessdata_dir.clone(),
            lang: self.lang.clone(),
            psm: self.psm,
            user_words: copy_texts(&self.user_words),
            user_patterns: copy_text(&self.user_patterns),
        }
    }
}

impl OcrConfig {
    /// The name of the language model's file in the language data directory.
    pub fn model_file(&self) -> (name: String)
        ensures
            name@ == self.lang@ + ".traineddata"@,
    {
        let mut v = chars_of(self.lang.as_str());
        push_text(&mut v, ".traineddata");
        string_of(&v)
    }

    /// Whether the engine can run, given whether the executable and the language
    /// model are files.
    pub fn is_available(&self, exe_is_file: bool, model_is_file: bool) -> (r: bool)
        ensures
            r == (exe_is_file && model_is_file),
    {
        exe_is_file && model_is_file
    }
}

/// The engine's command line. `words_file` is the file that the word lists were
/// combined in, if there are any, and `patterns_file` the pattern file, if it
/// exists.
pub open spec fn command_line(
    config: OcrConfig,
    image: Seq<char>,
    out_base: Seq<char>,
    words_file: Option<Seq<char>>,
    patterns_file: Option<Seq<char>>,
) -> Seq<Seq<char>> {
    let base = seq![
        image,
        out_base,
        "--tessdata-dir"@,
        config.tessdata_dir@,
        "-l"@,
        config.lang@,
        "--psm"@,
        decimal(config.psm as nat),
        "-c"@,
        "tessedit_create_tsv=1"@,
    ];
    let with_words = match words_file {
        Some(path) => base + seq!["--user-words"@, path],
        None => base,
    };
    match patterns_file {
        Some(path) => with_words + seq!["--user-patterns"@, path],
        None => with_words,
    }
}

fn push_arg(args: &mut Vec<String>, arg: &str)
    ensures
        views(final(args)@) == views(old(args)@).push(arg@),
{
    let item = arg.to_owned();
    proof {
        lemma_views_push(args@, item);
    }
    args.push(item);
}

/// The arguments to run the engine with.
pub fn engine_args(
    config: &OcrConfig,
    image: &str,
    out_base: &str,
    words_file: &Option<String>,
    patterns_file: &Option<String>,
) -> (args: Vec<String>)
    ensures
        views(args@) == command_line(
            *config,
            image@,
            out_base@,
            text_of(*words_file),
            text_of(*patterns_file),
        ),
{
    let mut args: Vec<String> = Vec::new();
    assert(views(args@) =~= Seq::empty());
    push_arg(&mut args, image);
    push_arg(&mut args, out_base);
    push_arg(&mut args, "--tessdata-dir");
    push_arg(&mut args, config.tessdata_dir.as_str());
    push_arg(&mut args, "-l");
    push_arg(&mut args, config.lang.as_str());
    push_arg(&mut args, "--psm");
    let mut psm: Vec<char> = Vec::new();
    push_decimal(&mut psm, config.psm as u64);
    let psm = string_of(&psm);
    push_arg(&mut args, psm.as_str());
    push_arg(&mut args, "-c");
    push_arg(&mut args, "tessedit_create_tsv=1");
    if let Some(path) = words_file {
        push_arg(&mut args, "--user-words");
        push_arg(&mut args, path.as_str());
    }
    if let Some(path) = patterns_file {
        push_arg(&mut args, "--user-patterns");
        push_arg(&mut args, path.as_str());
    }
    args
}

/// The word lists one after the other, each with a line break behind it. A list
/// that could not be read is `None` and left out.
pub open spec fn combined(lists: Seq<Option<String>>) -> Seq<char>
    decreases lists.len(),
{
    if lists.len() == 0 {
        Seq::empty()
    } else {
        let before = combined(lists.drop_last());
        match lists.last() {
            Some(list) => before + list@ + seq!['\n'],
            None => before,
        }
    }
}

/// Combines the word lists into the text of one file.
pub fn combine_word_lists(lists: &Vec<Option<String>>) -> (r: String)
    ensures
        r@ == combined(lists@),
{
    let mut v: Vec<char> = Vec::new();
    let mut i: usize = 0;
    while i < lists.len()
        invariant
            i <= lists.len(),
            v@ == combined(lists@.take(i as int)),
        decreases lists.len() - i,
    {
        assert(lists@.take(i + 1).drop_last() == lists@.take(i as int));
        match &lists[i] {
            Some(list) => {
                push_text(&mut v, list.as_str());
                v.push('\n');
            },
            None => {},
        }
        i += 1;
    }
    assert(lists@.take(lists@.len() as int) == lists@);
    string_of(&v)
}

/// The token of one run of the engine: process id and run number.
pub open spec fn token(pid: nat, run: nat) -> Seq<char> {
    decimal(pid).push('_') + decimal(run)
}

/// A token for temporary file names, made of the process id and the number of
/// the run.
pub fn unique_token(pid: u32, run: u64) -> (t: String)
    ensures
        t@ == token(pid as nat, run as nat),
{
    let mut v: Vec<char> = Vec::new();
    push_decimal(&mut v, pid as u64);
    v.push('_');
    push_decimal(&mut v, run);
    assert(v@ =~= token(pid as nat, run as nat));
    string_of(&v)
}

/// Runs that differ in process or number have different tokens, so that they
/// never write to each other's files.
pub proof fn law_tokens_are_unique(pid: nat, run: nat, other_pid: nat, other_run: nat)
    requires
        token(pid, run) == token(other_pid, other_run),
    ensures
        pid == other_pid,
        run == other_run,
{
    lemma_decimal_pair(pid, run, other_pid, other_run, '_');
}

/// What to say where the engine is missing.
pub fn missing_engine(exe: &str) -> (message: String)
    ensures
        message@ == "tesseract executable not found: "@ + exe@,
{
    let mut v = chars_of("tesseract executable not found: ");
    push_text(&mut v, exe);
    string_of(&v)
}

/// What to say where the engine failed.
pub fn engine_failure(status: &str, stderr: &str) -> (message: String)
    ensures
        message@ == "tesseract failed ("@ + status@ + "): "@ + stderr@,
{
    let mut v = chars_of("tesseract failed (");
    push_text(&mut v, status);
    push_text(&mut v, "): ");
    push_text(&mut v, stderr);
    string_of(&v)
}

/// A line without the carriage return at its end.
pub open spec fn without_return(line: Seq<char>) -> Seq<char> {
    if line.len() > 0 && line.last() == '\r' {
        line.drop_last()
    } else {
        line
    }
}

/// The lines of `s`. Each ends with a line feed, which may have a carriage return
/// before it; the last may end without.
pub open spec fn lines(s: Seq<char>) -> Seq<Seq<char>> {
    let parts = pieces(s, '\n');
    let ended = Seq::new((parts.len() - 1) as nat, |i: int| without_return(parts[i]));
    if parts.last().len() == 0 {
        ended
    } else {
        ended.push(parts.last())
    }
}

/// Splits `v` into lines.
fn split_lines(v: &Vec<char>) -> (r: Vec<Vec<char>>)
    ensures
        texts(r@) == lines(v@),
{
    let parts = split_pieces(v, '\n');
    let mut r: Vec<Vec<char>> = Vec::new();
    let mut i: usize = 0;
    while i + 1 < parts.len()
        invariant
            parts@.len() > 0,
            i < parts.len(),
            texts(parts@) == pieces(v@, '\n'),
            texts(r@) == Seq::new(i as nat, |k: int| without_return(pieces(v@, '\n')[k])),
        decreases parts.len() - i,
    {
        let part = &parts[i];
        assert(pieces(v@, '\n')[i as int] == part@);
        let to: usize = if part.len() > 0 && part[part.len() - 1] == '\r' {
            part.len() - 1
        } else {
            part.len()
        };
        let line = slice_chars(part, 0, to);
        assert(line@ =~= without_return(part@));
        let ghost before = texts(r@);
        r.push(line);
        assert(texts(r@) =~= before.push(line@));
        i += 1;
    }
    let last = &parts[i];
    assert(pieces(v@, '\n')[i as int] == last@);
    if last.len() > 0 {
        let line = slice_chars(last, 0, last.len());
        assert(line@ =~= last@);
        let ghost before = texts(r@);
        r.push(line);
        assert(texts(r@) =~= before.push(line@));
    }
    r
}

/// The number in a column, 0 where there is none.
pub open spec fn column(s: Seq<char>) -> i32 {
    match i32_of(s) {
        Some(n) => n,
        None => 0,
    }
}

fn read_column(v: &Vec<char>) -> (n: i32)
    ensures
        n == column(v@),
{
    match parse_i32(v) {
        Some(n) => n,
        None => 0,
    }
}

/// The word that a row of the engine's output gives: a row of twelve or more
/// columns, of level 5, with some text and with a confidence.
pub open spec fn row_word(columns: Seq<Seq<char>>) -> Option<WordView> {
    if columns.len() < 12 || columns[0] != "5"@ || trim(columns[11]).len() == 0 {
        None
    } else {
        match confidence_of(columns[10]) {
            Some(conf) => Some(
                WordView {
                    text: trim(columns[11]),
                    conf,
                    left: column(columns[6]),
                    top: column(columns[7]),
                    width: column(columns[8]),
                    height: column(columns[9]),
                    line: (column(columns[2]), column(columns[3]), column(columns[4])),
                    word_num: column(columns[5]),
                },
            ),
            None => None,
        }
    }
}

/// The words of the rows. The first row may be a header.
pub open spec fn words_of_rows(rows: Seq<Seq<char>>) -> Seq<WordView>
    decreases rows.len(),
{
    if rows.len() == 0 {
        Seq::empty()
    } else {
        let before = words_of_rows(rows.drop_last());
        if rows.len() == 1 && starts_with(rows[0], "level"@) {
            before
        } else {
            match row_word(pieces(rows.last(), '\t')) {
                Some(word) => before.push(word),
                None => before,
            }
        }
    }
}

/// Reads the word that a row gives.
fn read_row(row: &Vec<char>) -> (r: Option<Word>)
    ensures
        match r {
            Some(word) => row_word(pieces(row@, '\t')) == Some(word@),
            None => row_word(pieces(row@, '\t')) is None,
        },
{
    let columns = split_pieces(row, '\t');
    let ghost c = pieces(row@, '\t');
    assert(c.len() == columns@.len());
    assert(forall|i: int| 0 <= i < c.len() ==> c[i] == #[trigger] columns@[i]@);
    if columns.len() < 12 || !same_chars(&columns[0], &chars_of("5")) {
        return None;
    }
    let text = trimmed(&columns[11]);
    if text.len() == 0 {
        return None;
    }
    match parse_confidence(&columns[10]) {
        Some(conf) => Some(
            Word {
                text: string_of(&text),
                conf,
                left: read_column(&columns[6]),
                top: read_column(&columns[7]),
                width: read_column(&columns[8]),
                height: read_column(&columns[9]),
                line: (read_column(&columns[2]), read_column(&columns[3]), read_column(&columns[4])),
                word_num: read_column(&columns[5]),
            },
        ),
        None => None,
    }
}

/// Reads the engine's tab-separated output: the rows of level 5 that have text.
pub fn parse_tsv(tsv: &str) -> (words: Vec<Word>)
    ensures
        views(words@) == words_of_rows(lines(tsv@)),
{
    let rows = split_lines(&chars_of(tsv));
    let level = chars_of("level");
    let mut words: Vec<Word> = Vec::new();
    let mut i: usize = 0;
    assert(views(words@) =~= Seq::empty());
    while i < rows.len()
        invariant
            i <= rows.len(),
            level@ == "level"@,
            views(words@) == words_of_rows(texts(rows@).take(i as int)),
        decreases rows.len() - i,
    {
        let row = &rows[i];
        proof {
            let p = texts(rows@).take(i + 1);
            assert(p.drop_last() == texts(rows@).take(i as int));
            assert(p.last() == row@);
        }
        if !(i == 0 && stands_at(row, &level, 0)) {
            match read_row(row) {
                Some(word) => {
                    proof {
                        lemma_views_push(words@, word);
                    }
                    words.push(word);
                },
                None => {},
            }
        }
        i += 1;
    }
    assert(texts(rows@).take(rows@.len() as int) == texts(rows@));
    words
}

/// The text of each line: consecutive words of one line, with blanks between.
pub open spec fn line_texts(words: Seq<WordView>) -> Seq<Seq<char>>
    decreases words.len(),
{
    if words.len() == 0 {
        Seq::empty()
    } else {
        let before = line_texts(words.drop_last());
        if words.len() >= 2 && words[words.len() - 2].line == words.last().line {
            before.drop_last().push(before.last() + blank() + words.last().text)
        } else {
            before.push(words.last().text)
        }
    }
}

/// Groups words into lines in reading order and joins the text of each line.
pub fn lines_from_words(words: &[Word]) -> (lines: Vec<String>)
    ensures
        views(lines@) == line_texts(views(words@)),
{
    let ghost all = views(words@);
    let mut done: Vec<String> = Vec::new();
    let mut current: Vec<char> = Vec::new();
    let mut i: usize = 0;
    assert(views(done@) =~= Seq::empty());
    while i < words.len()
        invariant
            i <= words.len(),
            all == views(words@),
            i == 0 ==> done@.len() == 0,
            line_texts(all.take(i as int)) == if i == 0 {
                views(done@)
            } else {
                views(done@).push(current@)
            },
        decreases words.len() - i,
    {
        proof {
            let p = all.take(i + 1);
            assert(p.drop_last() == all.take(i as int));
            assert(p.last() == words@[i as int]@);
            if i > 0 {
                assert(p[p.len() - 2] == words@[i - 1]@);
                assert(views(done@).push(current@).drop_last() =~= views(done@));
            }
        }
        if i > 0 && words[i - 1].line.0 == words[i].line.0 && words[i - 1].line.1
            == words[i].line.1 && words[i - 1].line.2 == words[i].line.2 {
            let ghost before = current@;
            current.push(' ');
            push_text(&mut current, words[i].text.as_str());
            assert(current@ =~= before + blank() + words@[i as int].text@);
        } else {
            if i > 0 {
                let line = string_of(&current);
                proof {
                    lemma_views_push(done@, line);
                }
                done.push(line);
            }
            current = chars_of(words[i].text.as_str());
        }
        i += 1;
    }
    assert(all.take(words@.len() as int) == all);
    if i > 0 {
        let line = string_of(&current);
        proof {
            lemma_views_push(done@, line);
        }
        done.push(line);
    }
    done
}

/// A row of the engine's output gives a word exactly where it has its twelve columns, is of
/// level 5, and has a text and a confidence. The word stands on the line of its block,
/// paragraph and line, at the place and of the size that the row states; what is no number
/// counts as 0.
pub proof fn law_row_states_its_word(columns: Seq<Seq<char>>)
    ensures
        row_word(columns) is Some <==> columns.len() >= 12 && columns[0] == "5"@ && trim(
            columns[11],
        ).len() > 0 && confidence_of(columns[10]) is Some,
        match row_word(columns) {
            Some(word) => {
                &&& word.text == trim(columns[11])
                &&& Some(word.conf) == confidence_of(columns[10])
                &&& word.line == (column(columns[2]), column(columns[3]), column(columns[4]))
                &&& word.word_num == column(columns[5])
                &&& word.left == column(columns[6])
                &&& word.top == column(columns[7])
                &&& word.width == column(columns[8])
                &&& word.height == column(columns[9])
            },
            None => true,
        },
        forall|s: Seq<char>|
            match i32_of(s) {
                Some(n) => #[trigger] column(s) == n,
                None => column(s) == 0,
            },
{
}

/// The words are those of the rows, one after the other; only a header in front of them
/// gives none.
pub proof fn law_words_follow_the_rows(rows: Seq<Seq<char>>, row: Seq<char>)
    ensures
        words_of_rows(rows.push(row)) == if rows.len() == 0 && starts_with(row, "level"@) {
            Seq::empty()
        } else {
            match row_word(pieces(row, '\t')) {
                Some(word) => words_of_rows(rows).push(word),
                None => words_of_rows(rows),
            }
        },
        words_of_rows(Seq::empty()).len() == 0,
{
    assert(rows.push(row).drop_last() =~= rows);
    if rows.len() == 0 {
        assert(words_of_rows(rows) =~= Seq::empty());
    }
}

/// A word that stands on the line of the word before it goes to the end of that line's
/// text, behind a blank; any other word starts a new line.
pub proof fn law_words_extend_their_line(words: Seq<WordView>, word: WordView)
    ensures
        words.len() > 0 && words.last().line == word.line ==> line_texts(words.push(word))
            == line_texts(words).drop_last().push(line_texts(words).last() + seq![' '] + word.text),
        words.len() == 0 || words.last().line != word.line ==> line_texts(words.push(word))
            == line_texts(words).push(word.text),
        line_texts(Seq::empty()).len() == 0,
{
    assert(words.push(word).drop_last() =~= words);
}

/// A word is centred half its height below its top.
pub proof fn law_centre_is_half_way_down(word: WordView)
    ensures
        word.height >= 0 ==> word.top <= word.center() <= word.top + word.height,
        word.height >= 0 ==> 2 * (word.center() - word.top) <= word.height <= 2 * (word.center()
            - word.top) + 1,
{
}

} // verus!
