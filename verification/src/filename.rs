//! Classification by file name alone: no bytes are read.
use vstd::prelude::*;

use crate::fspath::{a_path_of_names_has_them_for_parts, are_names, file_name, file_name_of, joined};
use crate::sniff::DocType;
use crate::text::{chars_of, lower_text, lowercase, same_text, text_of, text_view};

verus! {

/// The position of the last dot, if there is one.
pub open spec fn last_dot(name: Seq<char>) -> Option<int>
    decreases name.len(),
{
    if name.len() == 0 {
        None
    } else if name.last() == '.' {
        Some(name.len() - 1)
    } else {
        last_dot(name.drop_last())
    }
}

/// What stands behind the last dot of a name; a dot that begins the name does
/// not count.
pub open spec fn suffix_of(name: Seq<char>) -> Option<Seq<char>> {
    match last_dot(name) {
        Some(k) if k > 0 => Some(name.skip(k + 1)),
        _ => None,
    }
}

/// A path's extension in lower case.
pub open spec fn extension_of(path: Seq<char>) -> Option<Seq<char>> {
    match file_name_of(path) {
        Some(name) => match suffix_of(name) {
            Some(suffix) => Some(lowercase(suffix)),
            None => None,
        },
        None => None,
    }
}

/// What stands behind the last dot of a name.
fn suffix(name: &str) -> (r: Option<String>)
    ensures
        text_view(r) == suffix_of(name@),
{
    let chars = chars_of(name);
    let mut k: usize = chars.len();
    assert(name@.take(k as int) =~= name@);
    while k > 0 && chars[k - 1] != '.'
        invariant
            0 <= k <= chars.len(),
            chars@ == name@,
            last_dot(name@) == last_dot(name@.take(k as int)),
        decreases k,
    {
        assert(name@.take(k as int).drop_last() =~= name@.take(k - 1));
        k = k - 1;
    }
    if k > 1 {
        let out = text_of(&chars, k, chars.len());
        assert(out@ =~= name@.skip(k as int));
        Some(out)
    } else {
        None
    }
}

/// A path's extension in lower case.
pub fn extension(path: &str) -> (r: Option<String>)
    ensures
        text_view(r) == extension_of(path@),
{
    match file_name(path) {
        Some(name) => match suffix(name.as_str()) {
            Some(found) => Some(lower_text(found.as_str())),
            None => None,
        },
        None => None,
    }
}

/// The extensions of plain text and source code: not every language, just
/// enough that a working tree shows up as text.
pub open spec fn is_text_extension(ext: Seq<char>) -> bool {
    ||| ext == "txt"@
    ||| ext == "md"@
    ||| ext == "markdown"@
    ||| ext == "rst"@
    ||| ext == "org"@
    ||| ext == "rs"@
    ||| ext == "py"@
    ||| ext == "js"@
    ||| ext == "ts"@
    ||| ext == "jsx"@
    ||| ext == "tsx"@
    ||| ext == "go"@
    ||| ext == "java"@
    ||| ext == "c"@
    ||| ext == "h"@
    ||| ext == "cpp"@
    ||| ext == "hpp"@
    ||| ext == "cc"@
    ||| ext == "cs"@
    ||| ext == "rb"@
    ||| ext == "php"@
    ||| ext == "sh"@
    ||| ext == "bash"@
    ||| ext == "zsh"@
    ||| ext == "toml"@
    ||| ext == "yaml"@
    ||| ext == "yml"@
    ||| ext == "json"@
    ||| ext == "xml"@
    ||| ext == "html"@
    ||| ext == "css"@
    ||| ext == "sql"@
    ||| ext == "lua"@
    ||| ext == "swift"@
    ||| ext == "kt"@
    ||| ext == "scala"@
    ||| ext == "el"@
    ||| ext == "vim"@
    ||| ext == "conf"@
    ||| ext == "ini"@
    ||| ext == "cfg"@
    ||| ext == "gitignore"@
    ||| ext == "env"@
}

fn has_text_extension(ext: &str) -> (r: bool)
    ensures
        r == is_text_extension(ext@),
{
    same_text(ext, "txt")
        || same_text(ext, "md")
        || same_text(ext, "markdown")
        || same_text(ext, "rst")
        || same_text(ext, "org")
        || same_text(ext, "rs")
        || same_text(ext, "py")
        || same_text(ext, "js")
        || same_text(ext, "ts")
        || same_text(ext, "jsx")
        || same_text(ext, "tsx")
        || same_text(ext, "go")
        || same_text(ext, "java")
        || same_text(ext, "c")
        || same_text(ext, "h")
        || same_text(ext, "cpp")
        || same_text(ext, "hpp")
        || same_text(ext, "cc")
        || same_text(ext, "cs")
        || same_text(ext, "rb")
        || same_text(ext, "php")
        || same_text(ext, "sh")
        || same_text(ext, "bash")
        || same_text(ext, "zsh")
        || same_text(ext, "toml")
        || same_text(ext, "yaml")
        || same_text(ext, "yml")
        || same_text(ext, "json")
        || same_text(ext, "xml")
        || same_text(ext, "html")
        || same_text(ext, "css")
        || same_text(ext, "sql")
        || same_text(ext, "lua")
        || same_text(ext, "swift")
        || same_text(ext, "kt")
        || same_text(ext, "scala")
        || same_text(ext, "el")
        || same_text(ext, "vim")
        || same_text(ext, "conf")
        || same_text(ext, "ini")
        || same_text(ext, "cfg")
        || same_text(ext, "gitignore")
        || same_text(ext, "env")
}

/// The office document that an extension stands for.
pub open spec fn office_type(ext: Option<Seq<char>>) -> Option<DocType> {
    match ext {
        Some(e) => if e == "docx"@ {
            Some(DocType::Docx)
        } else if e == "xlsx"@ {
            Some(DocType::Xlsx)
        } else if e == "pptx"@ {
            Some(DocType::Pptx)
        } else {
            None
        },
        None => None,
    }
}

/// The document that an extension stands for.
pub open spec fn guessed(ext: Option<Seq<char>>) -> DocType {
    match ext {
        Some(e) => if is_text_extension(e) {
            DocType::Text
        } else if e == "pdf"@ {
            DocType::Pdf
        } else {
            match office_type(ext) {
                Some(doc_type) => doc_type,
                None => DocType::Unknown,
            }
        },
        None => DocType::Unknown,
    }
}

/// The office document that a path's extension stands for.
pub fn office_type_by_extension(path: &str) -> (r: Option<DocType>)
    ensures
        r == office_type(extension_of(path@)),
{
    match extension(path) {
        Some(ext) => office_by_extension(ext.as_str()),
        None => None,
    }
}

/// The office document that an extension, in lower case, stands for.
pub fn office_by_extension(ext: &str) -> (r: Option<DocType>)
    ensures
        r == office_type(Some(ext@)),
{
    if same_text(ext, "docx") {
        Some(DocType::Docx)
    } else if same_text(ext, "xlsx") {
        Some(DocType::Xlsx)
    } else if same_text(ext, "pptx") {
        Some(DocType::Pptx)
    } else {
        None
    }
}

/// The document that an extension, in lower case, stands for.
pub fn guess_by_extension(ext: &str) -> (r: DocType)
    ensures
        r == guessed(Some(ext@)),
{
    if has_text_extension(ext) {
        DocType::Text
    } else if same_text(ext, "pdf") {
        DocType::Pdf
    } else {
        match office_by_extension(ext) {
            Some(doc_type) => doc_type,
            None => DocType::Unknown,
        }
    }
}

/// Classify a path by its extension, whatever the letter case.
pub fn guess(path: &str) -> (r: DocType)
    ensures
        r == guessed(extension_of(path@)),
{
    match extension(path) {
        Some(ext) => guess_by_extension(ext.as_str()),
        None => DocType::Unknown,
    }
}

// Laws.

/// A name's extension is what follows its last dot. A name without a dot has none, and
/// neither has one whose only dot is its first character.
pub proof fn an_extension_follows_the_last_dot(stem: Seq<char>, ext: Seq<char>)
    requires
        !ext.contains('.'),
    ensures
        suffix_of(stem + seq!['.'] + ext) == (if stem.len() > 0 {
            Some(ext)
        } else {
            None
        }),
        suffix_of(ext) is None,
    decreases ext.len(),
{
    lemma_last_dot(stem, ext);
    let name = stem + seq!['.'] + ext;
    assert(name.skip((stem.len() + 1) as int) =~= ext);
}

proof fn lemma_last_dot(stem: Seq<char>, ext: Seq<char>)
    requires
        !ext.contains('.'),
    ensures
        last_dot(stem + seq!['.'] + ext) == Some(stem.len() as int),
        last_dot(ext) is None,
    decreases ext.len(),
{
    let name = stem + seq!['.'] + ext;
    if ext.len() > 0 {
        let less = ext.drop_last();
        assert(ext.contains(ext[ext.len() - 1]));
        assert forall|i: int| 0 <= i < less.len() implies #[trigger] less[i] != '.' by {
            assert(ext.contains(ext[i]));
        }
        lemma_last_dot(stem, less);
        assert(name.drop_last() =~= stem + seq!['.'] + less);
        assert(name.last() == ext.last());
    } else {
        assert(name.last() == '.');
    }
}

/// The extension that counts is that of the entry that the path ends in, and the letter
/// case in which it is written does not matter.
pub proof fn the_letter_case_of_an_extension_does_not_matter(
    dirs: Seq<Seq<char>>,
    stem: Seq<char>,
    ext: Seq<char>,
    same: Seq<char>,
)
    requires
        are_names(dirs.push(stem + seq!['.'] + ext)),
        are_names(dirs.push(stem + seq!['.'] + same)),
        stem.len() > 0,
        !ext.contains('.'),
        !same.contains('.'),
        lowercase(ext) == lowercase(same),
    ensures
        extension_of(joined(dirs.push(stem + seq!['.'] + ext))) == Some(lowercase(ext)),
        guessed(extension_of(joined(dirs.push(stem + seq!['.'] + ext)))) == guessed(
            extension_of(joined(dirs.push(stem + seq!['.'] + same))),
        ),
{
    let one = dirs.push(stem + seq!['.'] + ext);
    let two = dirs.push(stem + seq!['.'] + same);
    a_path_of_names_has_them_for_parts(one);
    a_path_of_names_has_them_for_parts(two);
    assert(one.last() == one[one.len() - 1]);
    assert(two.last() == two[two.len() - 1]);
    an_extension_follows_the_last_dot(stem, ext);
    an_extension_follows_the_last_dot(stem, same);
}

/// What the extensions stand for: each of the office formats and PDF has one of its own,
/// images are never told by their names, and plain text and source code have these. Any
/// other extension, and none, stands for nothing.
pub proof fn the_name_tells_the_kind(ext: Seq<char>)
    ensures
        guessed(None) == DocType::Unknown,
        guessed(Some(ext)) == DocType::Pdf <==> ext == "pdf"@,
        guessed(Some(ext)) == DocType::Docx <==> ext == "docx"@,
        guessed(Some(ext)) == DocType::Xlsx <==> ext == "xlsx"@,
        guessed(Some(ext)) == DocType::Pptx <==> ext == "pptx"@,
        guessed(Some(ext)) != DocType::Jpeg,
        guessed(Some(ext)) != DocType::Tiff,
        guessed(Some(ext)) == DocType::Text <==> text_extensions().contains(ext),
{
    lemma_kinds_are_told_apart();
    let known = text_extensions();
    if is_text_extension(ext) {
        lemma_text_extension_is_known(ext);
    }
    if known.contains(ext) {
        let k = choose|k: int| 0 <= k < known.len() && known[k] == ext;
        assert(is_text_extension(known[k]));
    }
}

/// The extensions of plain text and source code.
pub open spec fn text_extensions() -> Seq<Seq<char>> {
    seq![
        "txt"@, "md"@, "markdown"@, "rst"@, "org"@, "rs"@, "py"@, "js"@, "ts"@, "jsx"@, "tsx"@,
        "go"@, "java"@, "c"@, "h"@, "cpp"@, "hpp"@, "cc"@, "cs"@, "rb"@, "php"@, "sh"@, "bash"@,
        "zsh"@, "toml"@, "yaml"@, "yml"@, "json"@, "xml"@, "html"@, "css"@, "sql"@, "lua"@,
        "swift"@, "kt"@, "scala"@, "el"@, "vim"@, "conf"@, "ini"@, "cfg"@, "gitignore"@, "env"@,
    ]
}

proof fn lemma_text_extension_is_known(ext: Seq<char>)
    requires
        is_text_extension(ext),
    ensures
        text_extensions().contains(ext),
{
    let known = text_extensions();
    assert(known.len() == 43);
    assert(known[0] == "txt"@);
    assert(known[1] == "md"@);
    assert(known[2] == "markdown"@);
    assert(known[3] == "rst"@);
    assert(known[4] == "org"@);
    assert(known[5] == "rs"@);
    assert(known[6] == "py"@);
    assert(known[7] == "js"@);
    assert(known[8] == "ts"@);
    assert(known[9] == "jsx"@);
    assert(known[10] == "tsx"@);
    assert(known[11] == "go"@);
    assert(known[12] == "java"@);
    assert(known[13] == "c"@);
    assert(known[14] == "h"@);
    assert(known[15] == "cpp"@);
    assert(known[16] == "hpp"@);
    assert(known[17] == "cc"@);
    assert(known[18] == "cs"@);
    assert(known[19] == "rb"@);
    assert(known[20] == "php"@);
    assert(known[21] == "sh"@);
    assert(known[22] == "bash"@);
    assert(known[23] == "zsh"@);
    assert(known[24] == "toml"@);
    assert(known[25] == "yaml"@);
    assert(known[26] == "yml"@);
    assert(known[27] == "json"@);
    assert(known[28] == "xml"@);
    assert(known[29] == "html"@);
    assert(known[30] == "css"@);
    assert(known[31] == "sql"@);
    assert(known[32] == "lua"@);
    assert(known[33] == "swift"@);
    assert(known[34] == "kt"@);
    assert(known[35] == "scala"@);
    assert(known[36] == "el"@);
    assert(known[37] == "vim"@);
    assert(known[38] == "conf"@);
    assert(known[39] == "ini"@);
    assert(known[40] == "cfg"@);
    assert(known[41] == "gitignore"@);
    assert(known[42] == "env"@);
}

proof fn lemma_kinds_are_told_apart()
    ensures
        !is_text_extension("pdf"@),
        !is_text_extension("docx"@),
        !is_text_extension("xlsx"@),
        !is_text_extension("pptx"@),
        "pdf"@ != "docx"@,
        "pdf"@ != "xlsx"@,
        "pdf"@ != "pptx"@,
        "docx"@ != "xlsx"@,
        "docx"@ != "pptx"@,
        "xlsx"@ != "pptx"@,
{
    reveal_strlit("pdf");
    reveal_strlit("docx");
    reveal_strlit("xlsx");
    reveal_strlit("pptx");
    reveal_strlit("txt");
    reveal_strlit("md");
    reveal_strlit("markdown");
    reveal_strlit("rst");
    reveal_strlit("org");
    reveal_strlit("rs");
    reveal_strlit("py");
    reveal_strlit("js");
    reveal_strlit("ts");
    reveal_strlit("jsx");
    reveal_strlit("tsx");
    reveal_strlit("go");
    reveal_strlit("java");
    reveal_strlit("c");
    reveal_strlit("h");
    reveal_strlit("cpp");
    reveal_strlit("hpp");
    reveal_strlit("cc");
    reveal_strlit("cs");
    reveal_strlit("rb");
    reveal_strlit("php");
    reveal_strlit("sh");
    reveal_strlit("bash");
    reveal_strlit("zsh");
    reveal_strlit("toml");
    reveal_strlit("yaml");
    reveal_strlit("yml");
    reveal_strlit("json");
    reveal_strlit("xml");
    reveal_strlit("html");
    reveal_strlit("css");
    reveal_strlit("sql");
    reveal_strlit("lua");
    reveal_strlit("swift");
    reveal_strlit("kt");
    reveal_strlit("scala");
    reveal_strlit("el");
    reveal_strlit("vim");
    reveal_strlit("conf");
    reveal_strlit("ini");
    reveal_strlit("cfg");
    reveal_strlit("gitignore");
    reveal_strlit("env");
    let pdf = "pdf"@;
    let docx = "docx"@;
    let xlsx = "xlsx"@;
    let pptx = "pptx"@;
    assert(pdf.len() == 3 && pdf[0] == 'p' && pdf[1] == 'd');
    assert(docx.len() == 4 && docx[0] == 'd' && docx[3] == 'x');
    assert(xlsx.len() == 4 && xlsx[0] == 'x' && xlsx[3] == 'x');
    assert(pptx.len() == 4 && pptx[0] == 'p' && pptx[3] == 'x');
    assert("txt"@.len() == 3 && "txt"@[1] == 'x');
    assert("md"@.len() == 2);
    assert("markdown"@.len() == 8);
    assert("rst"@.len() == 3 && "rst"@[1] == 's');
    assert("org"@.len() == 3 && "org"@[1] == 'r');
    assert("rs"@.len() == 2);
    assert("py"@.len() == 2);
    assert("js"@.len() == 2);
    assert("ts"@.len() == 2);
    assert("jsx"@.len() == 3 && "jsx"@[1] == 's');
    assert("tsx"@.len() == 3 && "tsx"@[1] == 's');
    assert("go"@.len() == 2);
    assert("java"@.len() == 4 && "java"@[3] == 'a');
    assert("c"@.len() == 1);
    assert("h"@.len() == 1);
    assert("cpp"@.len() == 3 && "cpp"@[1] == 'p');
    assert("hpp"@.len() == 3 && "hpp"@[1] == 'p');
    assert("cc"@.len() == 2);
    assert("cs"@.len() == 2);
    assert("rb"@.len() == 2);
    assert("php"@.len() == 3 && "php"@[1] == 'h');
    assert("sh"@.len() == 2);
    assert("bash"@.len() == 4 && "bash"@[3] == 'h');
    assert("zsh"@.len() == 3 && "zsh"@[1] == 's');
    assert("toml"@.len() == 4 && "toml"@[3] == 'l');
    assert("yaml"@.len() == 4 && "yaml"@[3] == 'l');
    assert("yml"@.len() == 3 && "yml"@[1] == 'm');
    assert("json"@.len() == 4 && "json"@[3] == 'n');
    assert("xml"@.len() == 3 && "xml"@[1] == 'm');
    assert("html"@.len() == 4 && "html"@[3] == 'l');
    assert("css"@.len() == 3 && "css"@[1] == 's');
    assert("sql"@.len() == 3 && "sql"@[1] == 'q');
    assert("lua"@.len() == 3 && "lua"@[1] == 'u');
    assert("swift"@.len() == 5);
    assert("kt"@.len() == 2);
    assert("scala"@.len() == 5);
    assert("el"@.len() == 2);
    assert("vim"@.len() == 3 && "vim"@[1] == 'i');
    assert("conf"@.len() == 4 && "conf"@[3] == 'f');
    assert("ini"@.len() == 3 && "ini"@[1] == 'n');
    assert("cfg"@.len() == 3 && "cfg"@[1] == 'f');
    assert("gitignore"@.len() == 9);
    assert("env"@.len() == 3 && "env"@[1] == 'n');
}

} // verus!
