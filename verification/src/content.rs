use vstd::prelude::*;

verus! {

/// What the user practises: plain words or source code.
#[derive(Debug, Clone, Copy, PartialEq, Eq, Structural)]
pub enum PracticeKind {
    Words,
    Code,
}

pub open spec fn spec_practice_label(v: PracticeKind) -> Seq<char> {
    match v {
        PracticeKind::Words => "Words"@,
        PracticeKind::Code => "Code"@,
    }
}

impl PracticeKind {
    pub fn label(self) -> (r: &'static str)
        ensures
            r@ == spec_practice_label(self),
    {
        match self {
            PracticeKind::Words => "Words",
            PracticeKind::Code => "Code",
        }
    }
}

/// Language of a word list.
#[derive(Debug, Clone, Copy, PartialEq, Eq, Structural)]
pub enum WordLanguage {
    English,
    Russian,
}

pub open spec fn spec_language_label(v: WordLanguage) -> Seq<char> {
    match v {
        WordLanguage::English => "English"@,
        WordLanguage::Russian => "Russian"@,
    }
}

pub open spec fn spec_language_slug(v: WordLanguage) -> Seq<char> {
    match v {
        WordLanguage::English => "english"@,
        WordLanguage::Russian => "russian"@,
    }
}

impl WordLanguage {
    pub fn label(self) -> (r: &'static str)
        ensures
            r@ == spec_language_label(self),
    {
        match self {
            WordLanguage::English => "English",
            WordLanguage::Russian => "Russian",
        }
    }

    pub fn slug(self) -> (r: &'static str)
        ensures
            r@ == spec_language_slug(self),
    {
        match self {
            WordLanguage::English => "english",
            WordLanguage::Russian => "russian",
        }
    }
}

/// How many of the most frequent words a list holds.
#[derive(Debug, Clone, Copy, PartialEq, Eq, Structural)]
pub enum WordListSize {
    Top200,
    Top1k,
    Top5k,
    Top10k,
}

/// Inclusive bounds on the number of words a downloaded list of a size may hold.
pub open spec fn spec_expected_bounds(size: WordListSize) -> (usize, usize) {
    match size {
        WordListSize::Top200 => (190, 210),
        WordListSize::Top1k => (950, 1050),
        WordListSize::Top5k => (4700, 5100),
        WordListSize::Top10k => (9400, 10100),
    }
}

pub open spec fn spec_size_label(v: WordListSize) -> Seq<char> {
    match v {
        WordListSize::Top200 => "200"@,
        WordListSize::Top1k => "1k"@,
        WordListSize::Top5k => "5k"@,
        WordListSize::Top10k => "10k"@,
    }
}

pub open spec fn spec_size_suffix(v: WordListSize) -> Seq<char> {
    match v {
        WordListSize::Top200 => ""@,
        WordListSize::Top1k => "_1k"@,
        WordListSize::Top5k => "_5k"@,
        WordListSize::Top10k => "_10k"@,
    }
}

impl WordListSize {
    pub fn label(self) -> (r: &'static str)
        ensures
            r@ == spec_size_label(self),
    {
        match self {
            WordListSize::Top200 => "200",
            WordListSize::Top1k => "1k",
            WordListSize::Top5k => "5k",
            WordListSize::Top10k => "10k",
        }
    }

    pub fn suffix(self) -> (r: &'static str)
        ensures
            r@ == spec_size_suffix(self),
    {
        match self {
            WordListSize::Top200 => "",
            WordListSize::Top1k => "_1k",
            WordListSize::Top5k => "_5k",
            WordListSize::Top10k => "_10k",
        }
    }

    pub fn expected_range(self) -> (r: std::ops::RangeInclusive<usize>)
        ensures
            r@.start == spec_expected_bounds(self).0,
            r@.end == spec_expected_bounds(self).1,
            !r@.exhausted,
    {
        match self {
            WordListSize::Top200 => std::ops::RangeInclusive::new(190, 210),
            WordListSize::Top1k => std::ops::RangeInclusive::new(950, 1050),
            WordListSize::Top5k => std::ops::RangeInclusive::new(4700, 5100),
            WordListSize::Top10k => std::ops::RangeInclusive::new(9400, 10100),
        }
    }

    /// Whether a list of `count` words is plausible for this size.
    pub fn accepts_count(self, count: usize) -> (r: bool)
        ensures
            r == (spec_expected_bounds(self).0 <= count <= spec_expected_bounds(self).1),
    {
        let range = self.expected_range();
        range.contains(&count)
    }
}

/// Filter on the length (in characters) of practice words.
#[derive(Debug, Clone, Copy, PartialEq, Eq, Structural)]
pub enum WordLength {
    Any,
    Short,
    Medium,
    Long,
}

pub open spec fn spec_length_accepts(filter: WordLength, len: nat) -> bool {
    match filter {
        WordLength::Any => true,
        WordLength::Short => len <= 4,
        WordLength::Medium => 5 <= len <= 8,
        WordLength::Long => len >= 9,
    }
}

pub open spec fn spec_length_label(v: WordLength) -> Seq<char> {
    match v {
        WordLength::Any => "Any"@,
        WordLength::Short => "1-4"@,
        WordLength::Medium => "5-8"@,
        WordLength::Long => "9+"@,
    }
}

impl WordLength {
    pub fn label(self) -> (r: &'static str)
        ensures
            r@ == spec_length_label(self),
    {
        match self {
            WordLength::Any => "Any",
            WordLength::Short => "1-4",
            WordLength::Medium => "5-8",
            WordLength::Long => "9+",
        }
    }

    pub fn accepts(self, word: &str) -> (r: bool)
        ensures
            r == spec_length_accepts(self, word@.len()),
    {
        let len = word.unicode_len();
        match self {
            WordLength::Any => true,
            WordLength::Short => len <= 4,
            WordLength::Medium => 5 <= len && len <= 8,
            WordLength::Long => len >= 9,
        }
    }
}


/// Programming language of a code snippet.
#[derive(Debug, Clone, Copy, PartialEq, Eq, Hash, Structural)]
pub enum CodeLanguage {
    Python,
    JavaScript,
    TypeScript,
    Rust,
    Go,
    Swift,
    Kotlin,
    Cpp,
    CSharp,
    Java,
}

pub open spec fn spec_code_label(language: CodeLanguage) -> Seq<char> {
    match language {
        CodeLanguage::Python => "Python"@,
        CodeLanguage::JavaScript => "JavaScript"@,
        CodeLanguage::TypeScript => "TypeScript"@,
        CodeLanguage::Rust => "Rust"@,
        CodeLanguage::Go => "Go"@,
        CodeLanguage::Swift => "Swift"@,
        CodeLanguage::Kotlin => "Kotlin"@,
        CodeLanguage::Cpp => "C++"@,
        CodeLanguage::CSharp => "C#"@,
        CodeLanguage::Java => "Java"@,
    }
}

pub open spec fn spec_code_slug(language: CodeLanguage) -> Seq<char> {
    match language {
        CodeLanguage::Python => "python"@,
        CodeLanguage::JavaScript => "javascript"@,
        CodeLanguage::TypeScript => "typescript"@,
        CodeLanguage::Rust => "rust"@,
        CodeLanguage::Go => "go"@,
        CodeLanguage::Swift => "swift"@,
        CodeLanguage::Kotlin => "kotlin"@,
        CodeLanguage::Cpp => "cpp"@,
        CodeLanguage::CSharp => "csharp"@,
        CodeLanguage::Java => "java"@,
    }
}

pub open spec fn spec_code_extensions(language: CodeLanguage) -> Seq<Seq<char>> {
    match language {
        CodeLanguage::Python => seq!["py"@],
        CodeLanguage::JavaScript => seq!["js"@, "jsx"@, "mjs"@],
        CodeLanguage::TypeScript => seq!["ts"@, "tsx"@],
        CodeLanguage::Rust => seq!["rs"@],
        CodeLanguage::Go => seq!["go"@],
        CodeLanguage::Swift => seq!["swift"@],
        CodeLanguage::Kotlin => seq!["kt"@, "kts"@],
        CodeLanguage::Cpp => seq!["cpp"@, "cc"@, "cxx"@, "hpp"@, "hxx"@],
        CodeLanguage::CSharp => seq!["cs"@],
        CodeLanguage::Java => seq!["java"@],
    }
}

impl CodeLanguage {
    pub const ALL: [CodeLanguage; 10] = [
        CodeLanguage::Python,
        CodeLanguage::JavaScript,
        CodeLanguage::TypeScript,
        CodeLanguage::Rust,
        CodeLanguage::Go,
        CodeLanguage::Swift,
        CodeLanguage::Kotlin,
        CodeLanguage::Cpp,
        CodeLanguage::CSharp,
        CodeLanguage::Java,
    ];

    pub fn label(self) -> (r: &'static str)
        ensures
            r@ == spec_code_label(self),
    {
        match self {
            CodeLanguage::Python => "Python",
            CodeLanguage::JavaScript => "JavaScript",
            CodeLanguage::TypeScript => "TypeScript",
            CodeLanguage::Rust => "Rust",
            CodeLanguage::Go => "Go",
            CodeLanguage::Swift => "Swift",
            CodeLanguage::Kotlin => "Kotlin",
            CodeLanguage::Cpp => "C++",
            CodeLanguage::CSharp => "C#",
            CodeLanguage::Java => "Java",
        }
    }

    /// Name of the language in GitHub's repository search.
    pub fn github_name(self) -> (r: &'static str)
        ensures
            r@ == spec_code_label(self),
    {
        match self {
            CodeLanguage::Cpp => "C++",
            CodeLanguage::CSharp => "C#",
            other => other.label(),
        }
    }

    pub fn slug(self) -> (r: &'static str)
        ensures
            r@ == spec_code_slug(self),
    {
        match self {
            CodeLanguage::JavaScript => "javascript",
            CodeLanguage::TypeScript => "typescript",
            CodeLanguage::CSharp => "csharp",
            CodeLanguage::Cpp => "cpp",
            CodeLanguage::Python => "python",
            CodeLanguage::Rust => "rust",
            CodeLanguage::Go => "go",
            CodeLanguage::Swift => "swift",
            CodeLanguage::Kotlin => "kotlin",
            CodeLanguage::Java => "java",
        }
    }

    /// File extensions (without the dot) of source files in this language.
    pub fn extensions(self) -> (r: &'static [&'static str])
        ensures
            r@.len() == spec_code_extensions(self).len(),
            forall|i: int| 0 <= i < r@.len() ==> #[trigger] r@[i]@ == spec_code_extensions(self)[i],
    {
        match self {
            CodeLanguage::Python => &["py"],
            CodeLanguage::JavaScript => &["js", "jsx", "mjs"],
            CodeLanguage::TypeScript => &["ts", "tsx"],
            CodeLanguage::Rust => &["rs"],
            CodeLanguage::Go => &["go"],
            CodeLanguage::Swift => &["swift"],
            CodeLanguage::Kotlin => &["kt", "kts"],
            CodeLanguage::Cpp => &["cpp", "cc", "cxx", "hpp", "hxx"],
            CodeLanguage::CSharp => &["cs"],
            CodeLanguage::Java => &["java"],
        }
    }
}

/// How a typing session treats a wrong key.
#[derive(Debug, Clone, Copy, PartialEq, Eq, Structural)]
pub enum MistakeMode {
    /// The caret may not leave an uncorrected mistake behind.
    Strict,
    /// Mistakes are recorded and the caret moves on.
    Free,
}

pub open spec fn spec_mistake_label(v: MistakeMode) -> Seq<char> {
    match v {
        MistakeMode::Strict => "Strict"@,
        MistakeMode::Free => "Free"@,
    }
}

impl MistakeMode {
    pub fn label(self) -> (r: &'static str)
        ensures
            r@ == spec_mistake_label(self),
    {
        match self {
            MistakeMode::Strict => "Strict",
            MistakeMode::Free => "Free",
        }
    }
}

/// A block of source code taken from a public repository.
#[derive(Debug, Clone)]
pub struct Snippet {
    pub id: String,
    pub language: CodeLanguage,
    pub kind: String,
    pub text: String,
    pub repository: String,
    pub path: String,
    pub url: String,
    pub license: String,
    pub indent_normalized: bool,
}

/// Where the text of a session came from.
#[derive(Debug, Clone)]
pub enum ContentSource {
    Words { language: WordLanguage, size: WordListSize },
    Code(Snippet),
}

/// The text to type and its origin.
#[derive(Debug, Clone)]
pub struct TypingContent {
    pub text: String,
    pub source: ContentSource,
}

impl Snippet {
    /// A field-by-field copy.
    pub fn duplicate(&self) -> (r: Snippet)
        ensures
            r == *self,
    {
        Snippet {
            id: self.id.clone(),
            language: self.language,
            kind: self.kind.clone(),
            text: self.text.clone(),
            repository: self.repository.clone(),
            path: self.path.clone(),
            url: self.url.clone(),
            license: self.license.clone(),
            indent_normalized: self.indent_normalized,
        }
    }
}

impl ContentSource {
    /// A copy of the source description.
    pub fn duplicate(&self) -> (r: ContentSource)
        ensures
            r == *self,
    {
        match self {
            ContentSource::Words { language, size } => ContentSource::Words {
                language: *language,
                size: *size,
            },
            ContentSource::Code(snippet) => ContentSource::Code(snippet.duplicate()),
        }
    }
}

impl TypingContent {
    /// A copy of the text and its source.
    pub fn duplicate(&self) -> (r: TypingContent)
        ensures
            r == *self,
    {
        TypingContent { text: self.text.clone(), source: self.source.duplicate() }
    }
}

} // verus!
