//! Which recorded paths must be checked: paths that end in the package
//! manifest name always are; paths under a volatile tree are skipped.
use vstd::prelude::*;
use regex::bytes::Regex;

verus! {

#[verifier::external_type_specification]
#[verifier::external_body]
pub struct ExRegex(Regex);

#[verifier::external_type_specification]
#[verifier::external_body]
pub struct ExRegexError(regex::Error);

/// Whether the regular expression `pattern` matches somewhere in `haystack`.
pub uninterp spec fn regex_matches(pattern: Seq<char>, haystack: Seq<u8>) -> bool;

/// Whether `pattern` is a valid regular expression that compiles.
pub uninterp spec fn regex_compiles(pattern: Seq<char>) -> bool;

/// A compiled regular expression together with its source text.
pub struct Pattern {
    source: String,
    compiled: Regex,
}

impl Pattern {
    pub closed spec fn source(&self) -> Seq<char> {
        self.source@
    }
}

/// Relies on `regex::bytes::Regex::new`: compiles `source`, or reports why
/// it is not a valid pattern.
#[verifier::external_body]
fn compile(source: String) -> (r: Result<Pattern, regex::Error>)
    ensures
        r is Ok <==> regex_compiles(source@),
        r matches Ok(p) ==> p.source() == source@,
{
    match Regex::new(&source) {
        Ok(compiled) => Ok(Pattern { source, compiled }),
        Err(e) => Err(e),
    }
}

/// Relies on `regex::bytes::Regex::is_match`: whether the pattern, compiled
/// from its source text, matches somewhere in `haystack`.
#[verifier::external_body]
fn is_match(p: &Pattern, haystack: &[u8]) -> (r: bool)
    ensures
        r == regex_matches(p.source(), haystack@),
{
    p.compiled.is_match(haystack)
}

/// Why the classification rules could not be built.
#[derive(Debug, Clone, Copy, PartialEq, Eq, Structural)]
pub enum RuleError {
    /// A rule's text is not a valid regular expression.
    BadPattern,
}

/// Paths ending in the package manifest name.
pub open spec fn manifest_pattern() -> Seq<char> {
    "/package\\.yaml$"@
}

/// The alternatives `dirs` separated by `|`.
pub open spec fn alternation(dirs: Seq<Seq<char>>) -> Seq<char>
    decreases dirs.len(),
{
    if dirs.len() == 0 {
        Seq::empty()
    } else if dirs.len() == 1 {
        dirs[0]
    } else {
        alternation(dirs.drop_last()) + "|"@ + dirs.last()
    }
}

/// Matched on raw bytes (any byte, newline included, for `.`): keys (a
/// kind byte, then the path) under a temporary directory, the
/// tarball cache, a project root matched by `root`, or one of the listed
/// subdirectories of such a root.
pub open spec fn skip_pattern(root: Seq<char>, dirs: Seq<Seq<char>>) -> Seq<char> {
    "(?s-u)^.?(/tmp|.*/.cache/nix/tarballs|.*/"@ + root + "$|.*/"@ + root + "/("@ + alternation(dirs)
        + "))(/.*)?$"@
}

pub open spec fn string_views(v: Seq<String>) -> Seq<Seq<char>> {
    v.map_values(|s: String| s@)
}

/// Given whether the manifest rule and the skip rule match a key, whether
/// the key is checked: the manifest rule wins over the skip rule.
pub fn checked_by_rules(manifest: bool, skipped: bool) -> (r: bool)
    ensures
        r == (manifest || !skipped),
{
    manifest || !skipped
}

/// The two rules that decide which keys are checked.
pub struct Classifier {
    always: Pattern,
    skip: Pattern,
}

impl Classifier {
    pub closed spec fn always_source(&self) -> Seq<char> {
        self.always.source()
    }

    pub closed spec fn skip_source(&self) -> Seq<char> {
        self.skip.source()
    }

    /// A key is checked when the manifest rule claims it or the skip rule
    /// does not.
    pub open spec fn checks(&self, key: Seq<u8>) -> bool {
        regex_matches(self.always_source(), key) || !regex_matches(self.skip_source(), key)
    }

    /// Builds the rules for project roots matching `root`, whose listed
    /// subdirectories `dirs` are skipped.
    pub fn new(root: &str, dirs: &Vec<String>) -> (r: Result<Classifier, RuleError>)
        ensures
            r is Ok <==> (regex_compiles(manifest_pattern()) && regex_compiles(
                skip_pattern(root@, string_views(dirs@)),
            )),
            r matches Ok(c) ==> c.always_source() == manifest_pattern() && c.skip_source()
                == skip_pattern(root@, string_views(dirs@)),
    {
        let mut joined = String::new();
        let mut i: usize = 0;
        while i < dirs.len()
            invariant
                i <= dirs@.len(),
                joined@ == alternation(string_views(dirs@).subrange(0, i as int)),
            decreases dirs.len() - i,
        {
            let ghost pre = string_views(dirs@).subrange(0, i as int);
            if i > 0 {
                joined.append("|");
            }
            joined.append(dirs[i].as_str());
            i = i + 1;
            let ghost cur = string_views(dirs@).subrange(0, i as int);
            assert(cur.drop_last() =~= pre);
            if i == 1 {
                assert(joined@ =~= alternation(cur));
            }
        }
        assert(string_views(dirs@).subrange(0, dirs@.len() as int) =~= string_views(dirs@));
        let mut skip = String::from_str("(?s-u)^.?(/tmp|.*/.cache/nix/tarballs|.*/");
        skip.append(root);
        skip.append("$|.*/");
        skip.append(root);
        skip.append("/(");
        skip.append(joined.as_str());
        skip.append("))(/.*)?$");
        let always = match compile(String::from_str("/package\\.yaml$")) {
            Ok(p) => p,
            Err(_) => return Err(RuleError::BadPattern),
        };
        let skip = match compile(skip) {
            Ok(p) => p,
            Err(_) => return Err(RuleError::BadPattern),
        };
        Ok(Classifier { always, skip })
    }

    /// Whether the entry with this key must be fingerprinted.
    pub fn must_check(&self, key: &[u8]) -> (r: bool)
        ensures
            r == self.checks(key@),
    {
        let manifest = is_match(&self.always, key);
        let skipped = is_match(&self.skip, key);
        checked_by_rules(manifest, skipped)
    }
}

/// The project roots whose build trees are skipped.
pub open spec fn standard_root() -> Seq<char> {
    "excelsior[^/]*"@
}

/// Subdirectories of a project root that hold build outputs, caches,
/// version-control data and other content that is not source.
pub open spec fn standard_subdirectories() -> Seq<Seq<char>> {
    seq![
        "audit-service"@,
        "bench"@,
        "bin"@,
        "converted_csv"@,
        "csv"@,
        "DatabaseSchema"@,
        "dist-newstyle"@,
        "docker"@,
        "e2e"@,
        "frontend"@,
        "\\.git"@,
        "infrastructure"@,
        "lib"@,
        "local"@,
        "ml-server"@,
        "python"@,
        "review-validation"@,
        "scripts"@,
        "shared"@,
        "shared"@,
        "src"@,
        "styleguide"@,
        "support"@,
        "test-lib"@,
        "test-suite"@,
        "uploads"@,
    ]
}

/// The subdirectory names of `standard_subdirectories`, as strings.
pub fn project_subdirectories() -> (r: Vec<String>)
    ensures
        string_views(r@) == standard_subdirectories(),
{
    let r = vec![
            String::from_str("audit-service"),
            String::from_str("bench"),
            String::from_str("bin"),
            String::from_str("converted_csv"),
            String::from_str("csv"),
            String::from_str("DatabaseSchema"),
            String::from_str("dist-newstyle"),
            String::from_str("docker"),
            String::from_str("e2e"),
            String::from_str("frontend"),
            String::from_str("\\.git"),
            String::from_str("infrastructure"),
            String::from_str("lib"),
            String::from_str("local"),
            String::from_str("ml-server"),
            String::from_str("python"),
            String::from_str("review-validation"),
            String::from_str("scripts"),
            String::from_str("shared"),
            String::from_str("shared"),
            String::from_str("src"),
            String::from_str("styleguide"),
            String::from_str("support"),
            String::from_str("test-lib"),
            String::from_str("test-suite"),
            String::from_str("uploads"),
        ];
    assert(string_views(r@) =~= standard_subdirectories());
    r
}

impl Classifier {
    /// The rules for the standard project root and its subdirectories.
    pub fn standard() -> (r: Result<Classifier, RuleError>)
        ensures
            r is Ok <==> (regex_compiles(manifest_pattern()) && regex_compiles(
                skip_pattern(standard_root(), standard_subdirectories()),
            )),
            r matches Ok(c) ==> c.always_source() == manifest_pattern() && c.skip_source()
                == skip_pattern(standard_root(), standard_subdirectories()),
    {
        let dirs = project_subdirectories();
        Classifier::new("excelsior[^/]*", &dirs)
    }
}

} // verus!
