//! Where the preview of a preset is looked for: the file paths to try, and
//! the order in which they are tried.
//!
//! Paths are plain text. Both `/` and `\` end a folder name; new paths are
//! put together with `/`.

use vstd::prelude::*;
use vstd::string::*;

verus! {

/// Whether the character ends a folder name.
pub open spec fn is_separator(c: char) -> bool {
    c == '/' || c == '\\'
}

/// The place where the file name begins: behind the last separator, or at
/// the start of a path without one.
pub open spec fn name_start(path: Seq<char>) -> int
    decreases path.len(),
{
    if path.len() == 0 {
        0
    } else if is_separator(path.last()) {
        path.len() as int
    } else {
        name_start(path.drop_last())
    }
}

/// The place of the last dot in a name, or `-1` for a name without one.
pub open spec fn last_dot(name: Seq<char>) -> int
    decreases name.len(),
{
    if name.len() == 0 {
        -1
    } else if name.last() == '.' {
        name.len() - 1
    } else {
        last_dot(name.drop_last())
    }
}

/// The last part of a path: its file name.
pub open spec fn file_name(path: Seq<char>) -> Seq<char> {
    path.skip(name_start(path))
}

/// The path without its file name, the closing separator included; empty
/// for a bare file name.
pub open spec fn folder(path: Seq<char>) -> Seq<char> {
    path.take(name_start(path))
}

/// What follows the last dot of the file name. A name without a dot, or
/// with its only dot in front, has no extension.
pub open spec fn extension(path: Seq<char>) -> Option<Seq<char>> {
    let name = file_name(path);
    let dot = last_dot(name);
    if dot <= 0 {
        None
    } else {
        Some(name.skip(dot + 1))
    }
}

/// Whether the text spells `wav`, in upper or lower case.
pub open spec fn spells_wav(text: Seq<char>) -> bool {
    &&& text.len() == 3
    &&& (text[0] == 'w' || text[0] == 'W')
    &&& (text[1] == 'a' || text[1] == 'A')
    &&& (text[2] == 'v' || text[2] == 'V')
}

/// Whether the file is an uncompressed waveform, going by its extension.
pub open spec fn is_waveform(path: Seq<char>) -> bool {
    extension(path) is Some && spells_wav(extension(path)->0)
}

/// The hidden preview of a file: in the folder `.previews` beside it, under
/// the file's own name with `.ogg` added.
pub open spec fn cached(path: Seq<char>) -> Seq<char> {
    folder(path) + ".previews/"@ + file_name(path) + ".ogg"@
}

/// `below` placed under the folder `base`.
pub open spec fn joined(base: Seq<char>, below: Seq<char>) -> Seq<char> {
    if base.len() == 0 {
        below
    } else if is_separator(base.last()) {
        base + below
    } else {
        base + "/"@ + below
    }
}

/// The number of separators that a text begins with.
pub open spec fn leading_separators(text: Seq<char>) -> int
    decreases text.len(),
{
    if text.len() > 0 && is_separator(text[0]) {
        1 + leading_separators(text.drop_first())
    } else {
        0
    }
}

/// Whether `root` names a folder above `path`: the path begins with the
/// root, and the root ends where a folder name ends.
pub open spec fn lies_under(path: Seq<char>, root: Seq<char>) -> bool {
    &&& 0 < root.len() <= path.len()
    &&& path.take(root.len() as int) == root
    &&& (root.len() == path.len() || is_separator(root.last()) || is_separator(path[root.len() as int]))
}

/// The path from `root` down to the file, where the file lies under the
/// root.
pub open spec fn relative(path: Seq<char>, root: Seq<char>) -> Option<Seq<char>> {
    let rest = path.skip(root.len() as int);
    let below = rest.skip(leading_separators(rest));
    if lies_under(path, root) && below.len() > 0 {
        Some(below)
    } else {
        None
    }
}

/// The hidden preview of a file in the preview library: the file's path
/// below its product's content root, moved under
/// `<content_dir>/Samples/<alias>`. There is none for a product without an
/// alias, nor for a file that does not lie under the product's root.
pub open spec fn rerooted(content_dir: Seq<char>, alias: Seq<char>, file: Seq<char>, root: Seq<char>) -> Option<
    Seq<char>,
> {
    if alias.len() == 0 || relative(file, root) is None {
        None
    } else {
        Some(cached(joined(joined(joined(content_dir, "Samples"@), alias), relative(file, root)->0)))
    }
}

/// The places in a path that the other functions cut it at.
struct Shape {
    len: usize,
    name_at: usize,
    dot: Option<usize>,
}

/// Finds the places that a path is cut at.
fn shape(path: &str) -> (cut: Shape)
    ensures
        cut.len == path@.len(),
        cut.name_at == name_start(path@),
        cut.name_at <= cut.len,
        match cut.dot {
            Some(dot) => last_dot(file_name(path@)) == dot && cut.name_at + dot < cut.len,
            None => last_dot(file_name(path@)) == -1,
        },
{
    let len = path.unicode_len();
    let mut at: usize = 0;
    let mut name_at: usize = 0;
    let mut dot: Option<usize> = None;
    assert(path@.take(0).skip(0) =~= Seq::<char>::empty());
    for c in it: path.chars()
        invariant
            it.seq() == path@,
            len == path@.len(),
            at == it.index(),
            at <= len,
            name_at == name_start(path@.take(at as int)),
            name_at <= at,
            match dot {
                Some(d) => last_dot(path@.take(at as int).skip(name_at as int)) == d && name_at + d < at,
                None => last_dot(path@.take(at as int).skip(name_at as int)) == -1,
            },
    {
        let ghost seen = path@.take(at as int);
        let ghost next = path@.take(at + 1);
        proof {
            assert(next.drop_last() =~= seen);
            assert(next.last() == c);
        }
        if c == '/' || c == '\\' {
            name_at = at + 1;
            dot = None;
            assert(next.skip(name_at as int) =~= Seq::<char>::empty());
        } else {
            proof {
                let name = next.skip(name_at as int);
                assert(name.drop_last() =~= seen.skip(name_at as int));
                assert(name.last() == c);
            }
            if c == '.' {
                dot = Some(at - name_at);
            }
        }
        at = at + 1;
    }
    assert(path@.take(len as int) =~= path@);
    Shape { len, name_at, dot }
}

/// Whether the file is an uncompressed waveform, going by its extension.
pub fn has_waveform_extension(path: &str) -> (yes: bool)
    ensures
        yes == is_waveform(path@),
{
    let cut = shape(path);
    match cut.dot {
        None => false,
        Some(dot) => {
            if dot == 0 {
                return false;
            }
            let from = cut.name_at + dot + 1;
            let ending = path.substring_char(from, cut.len);
            assert(ending@ =~= file_name(path@).skip(dot + 1));
            if ending.unicode_len() != 3 {
                return false;
            }
            let first = ending.get_char(0);
            let second = ending.get_char(1);
            let third = ending.get_char(2);
            (first == 'w' || first == 'W') && (second == 'a' || second == 'A') && (third == 'v' || third == 'V')
        },
    }
}

/// The hidden preview of a file: in the folder `.previews` beside it.
pub fn cached_preview(path: &str) -> (preview: String)
    ensures
        preview@ == cached(path@),
{
    let cut = shape(path);
    let mut preview = String::from_str(path.substring_char(0, cut.name_at));
    preview.append(".previews/");
    preview.append(path.substring_char(cut.name_at, cut.len));
    preview.append(".ogg");
    assert(path@.subrange(0, cut.name_at as int) =~= folder(path@));
    assert(path@.subrange(cut.name_at as int, cut.len as int) =~= file_name(path@));
    preview
}

/// Whether the text ends in a separator.
fn ends_in_separator(text: &str, len: usize) -> (yes: bool)
    requires
        len == text@.len(),
        len > 0,
    ensures
        yes == is_separator(text@.last()),
{
    let last = text.get_char(len - 1);
    last == '/' || last == '\\'
}

/// `below` placed under the folder `base`.
pub fn join(base: &str, below: &str) -> (path: String)
    ensures
        path@ == joined(base@, below@),
{
    let len = base.unicode_len();
    if len == 0 {
        return String::from_str(below);
    }
    let mut path = String::from_str(base);
    if !ends_in_separator(base, len) {
        path.append("/");
    }
    path.append(below);
    path
}

/// The path from `root` down to the file, where the file lies under the
/// root.
pub fn relative_path(path: &str, root: &str) -> (below: Option<String>)
    ensures
        match below {
            Some(text) => relative(path@, root@) == Some(text@),
            None => relative(path@, root@) is None,
        },
{
    let len = path.unicode_len();
    let root_len = root.unicode_len();
    if root_len == 0 || root_len > len {
        return None;
    }
    let head = String::from_str(path.substring_char(0, root_len));
    let wanted = String::from_str(root);
    assert(path@.subrange(0, root_len as int) =~= path@.take(root_len as int));
    if !(head == wanted) {
        return None;
    }
    if root_len < len && !ends_in_separator(root, root_len) {
        let next = path.get_char(root_len);
        if !(next == '/' || next == '\\') {
            return None;
        }
    }
    let ghost rest = path@.skip(root_len as int);
    let mut from: usize = root_len;
    assert(rest.skip(0) =~= rest);
    while from < len
        invariant
            root_len <= from <= len,
            len == path@.len(),
            rest == path@.skip(root_len as int),
            leading_separators(rest) == (from - root_len) + leading_separators(rest.skip(from - root_len)),
        ensures
            from == len || !is_separator(rest.skip(from - root_len)[0]),
        decreases len - from,
    {
        let ghost tail = rest.skip(from - root_len);
        let c = path.get_char(from);
        assert(tail[0] == c);
        if !(c == '/' || c == '\\') {
            break ;
        }
        assert(tail.drop_first() =~= rest.skip(from + 1 - root_len));
        from = from + 1;
    }
    if from == len {
        assert(rest.skip(from - root_len).len() == 0);
        return None;
    }
    let below = String::from_str(path.substring_char(from, len));
    assert(path@.subrange(from as int, len as int) =~= rest.skip(leading_separators(rest)));
    Some(below)
}

/// The hidden preview of a file in the preview library under
/// `content_dir`, for a file of the product with the given alias and
/// content root.
pub fn rerooted_preview(content_dir: &str, alias: &str, file: &str, root: &str) -> (preview: Option<String>)
    ensures
        match preview {
            Some(path) => rerooted(content_dir@, alias@, file@, root@) == Some(path@),
            None => rerooted(content_dir@, alias@, file@, root@) is None,
        },
{
    if alias.is_empty() {
        return None;
    }
    match relative_path(file, root) {
        None => None,
        Some(below) => {
            let samples = join(content_dir, "Samples");
            let product = join(samples.as_str(), alias);
            let moved = join(product.as_str(), below.as_str());
            Some(cached_preview(moved.as_str()))
        },
    }
}

/// Where the installed preview library describes itself: one fixed file on
/// macOS, another one everywhere else.
pub fn manifest_path(macos: bool) -> (path: &'static str)
    ensures
        path@ == (if macos {
            "/Users/Shared/Native Instruments/installed_products/Native Browser Preview Library.json"@
        } else {
            "C:/Users/Public/Documents/Native Instruments/installed_products/Native Browser Preview Library.json"@
        }),
{
    if macos {
        "/Users/Shared/Native Instruments/installed_products/Native Browser Preview Library.json"
    } else {
        "C:/Users/Public/Documents/Native Instruments/installed_products/Native Browser Preview Library.json"
    }
}

/// How far the search for a preview has come.
#[derive(Debug, Clone, Copy, PartialEq, Eq, Structural)]
pub enum Stage {
    /// Waiting to hear whether the preset's own file exists.
    Direct,
    /// Waiting to hear whether the hidden preview beside the file exists.
    Cached,
    /// Waiting to hear what content root the preview library names.
    Manifest,
    /// Waiting to hear whether the preview in the library exists.
    Rerooted,
    /// The search is over.
    Over,
}

/// What the search wants to know next, or what it has found.
#[derive(Debug)]
pub enum Ask {
    /// Does this file exist?
    Exists(String),
    /// What content root does the installed preview library name, if it is
    /// installed?
    ContentDir,
    /// The preview is this file.
    Found(String),
    /// There is no preview.
    Nothing,
}

/// What the world answers.
#[derive(Debug)]
pub enum Reply {
    Exists(bool),
    ContentDir(Option<String>),
}

/// A search for the preview of one preset: the preset's file, the alias
/// and content root of its product, and the stage the search is at.
#[derive(Debug)]
pub struct Resolver {
    file: String,
    alias: String,
    root: String,
    candidate: String,
    stage: Stage,
}

/// What a search says.
pub struct Search {
    pub file: Seq<char>,
    pub alias: Seq<char>,
    pub root: Seq<char>,
    pub candidate: Seq<char>,
    pub stage: Stage,
}

/// What a question says.
pub enum Question {
    Exists(Seq<char>),
    ContentDir,
    Found(Seq<char>),
    Nothing,
}

/// What an answer says.
pub enum Answer {
    Exists(bool),
    ContentDir(Option<Seq<char>>),
}

impl View for Ask {
    type V = Question;

    open spec fn view(&self) -> Question {
        match self {
            Ask::Exists(path) => Question::Exists(path@),
            Ask::ContentDir => Question::ContentDir,
            Ask::Found(path) => Question::Found(path@),
            Ask::Nothing => Question::Nothing,
        }
    }
}

impl View for Reply {
    type V = Answer;

    open spec fn view(&self) -> Answer {
        match self {
            Reply::Exists(yes) => Answer::Exists(*yes),
            Reply::ContentDir(None) => Answer::ContentDir(None),
            Reply::ContentDir(Some(dir)) => Answer::ContentDir(Some(dir@)),
        }
    }
}

impl Search {
    /// The search at its end.
    pub open spec fn over(self) -> Search {
        Search { stage: Stage::Over, ..self }
    }

    /// The search that asks for `candidate` at `stage`.
    pub open spec fn asking(self, stage: Stage, candidate: Seq<char>) -> Search {
        Search { stage, candidate, ..self }
    }

    /// The first question about a preset's file: whether the file itself
    /// exists, where it is a waveform, else whether the hidden preview
    /// beside it exists.
    pub open spec fn begun(file: Seq<char>, alias: Seq<char>, root: Seq<char>) -> (Search, Question) {
        if is_waveform(file) {
            (Search { file, alias, root, candidate: file, stage: Stage::Direct }, Question::Exists(file))
        } else {
            (
                Search { file, alias, root, candidate: cached(file), stage: Stage::Cached },
                Question::Exists(cached(file)),
            )
        }
    }

    /// The search after an answer, and its next question. A file that
    /// exists is the preview. After the file itself the hidden preview
    /// beside it is tried, then the preview library, then nothing. An
    /// answer that does not fit the question ends the search without a
    /// preview.
    pub open spec fn stepped(self, answer: Answer) -> (Search, Question) {
        match (self.stage, answer) {
            (Stage::Direct, Answer::Exists(true)) => (self.over(), Question::Found(self.candidate)),
            (Stage::Direct, Answer::Exists(false)) => (
                self.asking(Stage::Cached, cached(self.file)),
                Question::Exists(cached(self.file)),
            ),
            (Stage::Cached, Answer::Exists(true)) => (self.over(), Question::Found(self.candidate)),
            (Stage::Cached, Answer::Exists(false)) => (
                self.asking(Stage::Manifest, self.candidate),
                Question::ContentDir,
            ),
            (Stage::Manifest, Answer::ContentDir(Some(dir))) => {
                let moved = rerooted(dir, self.alias, self.file, self.root);
                if moved is Some {
                    (self.asking(Stage::Rerooted, moved->0), Question::Exists(moved->0))
                } else {
                    (self.over(), Question::Nothing)
                }
            },
            (Stage::Rerooted, Answer::Exists(true)) => (self.over(), Question::Found(self.candidate)),
            _ => (self.over(), Question::Nothing),
        }
    }
}

impl View for Resolver {
    type V = Search;

    closed spec fn view(&self) -> Search {
        Search {
            file: self.file@,
            alias: self.alias@,
            root: self.root@,
            candidate: self.candidate@,
            stage: self.stage,
        }
    }
}

impl Resolver {
    /// Begins the search for the preview of a preset's file, for a product
    /// with the given alias and content root.
    pub fn start(file: String, alias: String, root: String) -> (begun: (Resolver, Ask))
        ensures
            (begun.0@, begun.1@) == Search::begun(file@, alias@, root@),
    {
        if has_waveform_extension(file.as_str()) {
            let ask = Ask::Exists(file.clone());
            let candidate = file.clone();
            (Resolver { file, alias, root, candidate, stage: Stage::Direct }, ask)
        } else {
            let candidate = cached_preview(file.as_str());
            let ask = Ask::Exists(candidate.clone());
            (Resolver { file, alias, root, candidate, stage: Stage::Cached }, ask)
        }
    }

    /// Takes the answer to the last question and gives the next one.
    pub fn answer(&mut self, reply: Reply) -> (ask: Ask)
        ensures
            (final(self)@, ask@) == old(self)@.stepped(reply@),
    {
        match (self.stage, reply) {
            (Stage::Direct, Reply::Exists(true)) => {
                self.stage = Stage::Over;
                Ask::Found(self.candidate.clone())
            },
            (Stage::Direct, Reply::Exists(false)) => {
                self.candidate = cached_preview(self.file.as_str());
                self.stage = Stage::Cached;
                Ask::Exists(self.candidate.clone())
            },
            (Stage::Cached, Reply::Exists(true)) => {
                self.stage = Stage::Over;
                Ask::Found(self.candidate.clone())
            },
            (Stage::Cached, Reply::Exists(false)) => {
                self.stage = Stage::Manifest;
                Ask::ContentDir
            },
            (Stage::Manifest, Reply::ContentDir(Some(dir))) => {
                match rerooted_preview(dir.as_str(), self.alias.as_str(), self.file.as_str(), self.root.as_str()) {
                    Some(moved) => {
                        let ask = Ask::Exists(moved.clone());
                        self.candidate = moved;
                        self.stage = Stage::Rerooted;
                        ask
                    },
                    None => {
                        self.stage = Stage::Over;
                        Ask::Nothing
                    },
                }
            },
            (Stage::Rerooted, Reply::Exists(true)) => {
                self.stage = Stage::Over;
                Ask::Found(self.candidate.clone())
            },
            _ => {
                self.stage = Stage::Over;
                Ask::Nothing
            },
        }
    }
}

/// What is on disk, as far as the search can see it: the files that exist,
/// and the content root that the installed preview library names.
pub struct World {
    pub files: Set<Seq<char>>,
    pub content_dir: Option<Seq<char>>,
}

impl World {
    /// The true answer to a question.
    pub open spec fn reply(self, question: Question) -> Answer {
        match question {
            Question::Exists(path) => Answer::Exists(self.files.contains(path)),
            _ => Answer::ContentDir(self.content_dir),
        }
    }

    /// One round of the search: the true answer is given to an open
    /// question. A search that is over stays as it is.
    pub open spec fn round(self, at: (Search, Question)) -> (Search, Question) {
        match at.1 {
            Question::Found(_) => at,
            Question::Nothing => at,
            _ => at.0.stepped(self.reply(at.1)),
        }
    }

    /// The preview of a file: the file itself where it is a waveform and
    /// exists; else the hidden preview beside it where that exists; else the
    /// preview in the installed library where that exists; else none.
    pub open spec fn preview(self, file: Seq<char>, alias: Seq<char>, root: Seq<char>) -> Option<Seq<char>> {
        if is_waveform(file) && self.files.contains(file) {
            Some(file)
        } else if self.files.contains(cached(file)) {
            Some(cached(file))
        } else if self.content_dir is Some && rerooted(self.content_dir->0, alias, file, root) is Some
            && self.files.contains(rerooted(self.content_dir->0, alias, file, root)->0) {
            rerooted(self.content_dir->0, alias, file, root)
        } else {
            None
        }
    }
}

/// The first match wins: a search that is told the truth is over after at
/// most four answers, and ends with the preview of the file, or with
/// nothing where the file has no preview.
pub proof fn law_first_match_wins(world: World, file: Seq<char>, alias: Seq<char>, root: Seq<char>)
    ensures
        ({
            let end = world.round(world.round(world.round(world.round(Search::begun(file, alias, root)))));
            match world.preview(file, alias, root) {
                Some(path) => end.1 == Question::Found(path),
                None => end.1 == Question::Nothing,
            }
        }),
{
}

/// A waveform that exists is found with the first answer: neither the
/// hidden preview beside it nor the preview library is asked for.
pub proof fn law_existing_waveform_is_found_at_once(
    world: World,
    file: Seq<char>,
    alias: Seq<char>,
    root: Seq<char>,
)
    requires
        is_waveform(file),
        world.files.contains(file),
    ensures
        Search::begun(file, alias, root).1 == Question::Exists(file),
        world.round(Search::begun(file, alias, root)).1 == Question::Found(file),
{
}

/// Without a hidden preview beside the file and without an installed
/// preview library there is no preview for a file that is no waveform.
pub proof fn law_nothing_to_find(world: World, file: Seq<char>, alias: Seq<char>, root: Seq<char>)
    requires
        !is_waveform(file),
        !world.files.contains(cached(file)),
        world.content_dir is None,
    ensures
        world.round(world.round(Search::begun(file, alias, root))).1 == Question::Nothing,
{
}

} // verus!
