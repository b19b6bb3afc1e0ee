//! Text encodings: guessing them, and turning bytes into text and back.

use crate::config::OpenMode;
use crate::text::same_str;
use chardetng::EncodingDetector;
use encoding_rs::Encoding;
use vstd::prelude::*;

verus! {

/// The name of the encoding that `encoding_rs::Encoding::for_label` gives for
/// a label, if it knows the label.
pub uninterp spec fn encoding_name(label: Seq<char>) -> Option<Seq<char>>;

/// The text that `encoding_rs::Encoding::decode` makes of bytes, for the
/// encoding with the given name.
pub uninterp spec fn decoded(name: Seq<char>, bytes: Seq<u8>) -> Seq<char>;

/// The bytes that `encoding_rs::Encoding::encode` makes of a text, for the
/// encoding with the given name.
pub uninterp spec fn encoded(name: Seq<char>, text: Seq<char>) -> Seq<u8>;

/// The name of the encoding that `chardetng::EncodingDetector` guesses for
/// bytes, and whether it is confident.
pub uninterp spec fn guessed(bytes: Seq<u8>) -> (Seq<char>, bool);

/// Calls `encoding_rs::Encoding::for_label` and takes the name of what it
/// finds.
///
/// An encoding's own name is one of its labels. The labels `utf-8`, `gbk` and
/// `gb18030` are known, for the encodings named `UTF-8`, `GBK` and `gb18030`.
#[verifier::external_body]
fn name_for_label(label: &str) -> (name: Option<String>)
    ensures
        name is Some <==> encoding_name(label@) is Some,
        name matches Some(n) ==> {
            &&& encoding_name(label@) == Some(n@)
            &&& encoding_name(n@) == Some(n@)
        },
        label@ == "utf-8"@ ==> name is Some && name->0@ == "UTF-8"@,
        label@ == "gbk"@ ==> name is Some && name->0@ == "GBK"@,
        label@ == "gb18030"@ ==> name is Some && name->0@ == "gb18030"@,
{
    Encoding::for_label(label.as_bytes()).map(|e| e.name().to_string())
}

/// Calls `encoding_rs::Encoding::decode` on the encoding with the given name.
///
/// As UTF-8, the bytes of a text are that text, where it does not begin with a
/// byte order mark.
#[verifier::external_body]
fn decode_as(name: &str, bytes: &[u8]) -> (text: String)
    requires
        encoding_name(name@) == Some(name@),
        bytes@.len() <= usize::MAX / 16,
    ensures
        text@ == decoded(name@, bytes@),
        name@ == "UTF-8"@ ==> forall|s: Seq<char>|
            (s.len() == 0 || s[0] != '\u{feff}') && #[trigger] vstd::utf8::encode_utf8(s) == bytes@
                ==> text@ == s,
{
    Encoding::for_label(name.as_bytes()).unwrap().decode(bytes).0.into_owned()
}

/// Calls `encoding_rs::Encoding::encode` on the encoding with the given name.
///
/// As UTF-8, a text becomes its UTF-8 bytes.
#[verifier::external_body]
fn encode_as(name: &str, text: &str) -> (bytes: Vec<u8>)
    requires
        encoding_name(name@) == Some(name@),
        vstd::utf8::encode_utf8(text@).len() <= usize::MAX / 16,
    ensures
        bytes@ == encoded(name@, text@),
        name@ == "UTF-8"@ ==> bytes@ == vstd::utf8::encode_utf8(text@),
{
    Encoding::for_label(name.as_bytes()).unwrap().encode(text).0.into_owned()
}

/// Feeds bytes to a new `chardetng::EncodingDetector`, not as the end of the
/// stream, and calls `guess_assess` with UTF-8 allowed and no domain known. The
/// name is that of an `encoding_rs` encoding, and such a name is one of its own
/// labels.
#[verifier::external_body]
fn guess(bytes: &[u8]) -> (guess: (String, bool))
    ensures
        (guess.0@, guess.1) == guessed(bytes@),
        encoding_name(guess.0@) == Some(guess.0@),
{
    let mut detector = EncodingDetector::new();
    detector.feed(bytes, false);
    let (encoding, confident) = detector.guess_assess(None, true);
    (encoding.name().to_string(), confident)
}

/// One of the known encodings.
#[derive(Debug)]
pub struct TextEncoding {
    name: String,
}

impl TextEncoding {
    #[verifier::type_invariant]
    spec fn known(self) -> bool {
        encoding_name(self.name@) == Some(self.name@)
    }

    /// The encoding's name.
    pub closed spec fn spec_name(&self) -> Seq<char> {
        self.name@
    }

    pub fn name(&self) -> (name: &str)
        ensures
            name@ == self.spec_name(),
    {
        self.name.as_str()
    }

    /// The encoding that goes by `label`, if one does.
    pub fn for_label(label: &str) -> (encoding: Option<Self>)
        ensures
            match encoding {
                Some(e) => encoding_name(label@) == Some(e.spec_name()),
                None => encoding_name(label@) is None,
            },
    {
        match name_for_label(label) {
            Some(name) => Some(TextEncoding { name }),
            None => None,
        }
    }

    pub fn utf_8() -> (encoding: Self)
        ensures
            encoding.spec_name() == "UTF-8"@,
    {
        TextEncoding { name: name_for_label("utf-8").unwrap() }
    }

    pub fn gbk() -> (encoding: Self)
        ensures
            encoding.spec_name() == "GBK"@,
    {
        TextEncoding { name: name_for_label("gbk").unwrap() }
    }

    pub fn gb18030() -> (encoding: Self)
        ensures
            encoding.spec_name() == "gb18030"@,
    {
        TextEncoding { name: name_for_label("gb18030").unwrap() }
    }
}

/// The encoding that the bytes seem to be in.
pub fn detect_encoding(header: &[u8]) -> (encoding: TextEncoding)
    ensures
        encoding.spec_name() == guessed(header@).0,
{
    let (name, _confident) = guess(header);
    TextEncoding { name }
}

/// `c` with an ASCII capital made small.
pub open spec fn lower(c: char) -> char {
    if 'A' <= c <= 'Z' {
        (c as int + 32) as char
    } else {
        c
    }
}

/// Extensions of binary files.
pub open spec fn binary_exts() -> Seq<Seq<char>> {
    seq![
        "exe"@, "dll"@, "so"@, "dylib"@, "bin"@, "o"@, "a"@, "lib"@, "elf"@, "pe"@,
        "jpg"@, "jpeg"@, "png"@, "gif"@, "bmp"@, "webp"@, "ico"@, "mp3"@, "mp4"@, "flac"@,
        "wav"@, "avi"@, "mkv"@, "mov"@, "pdf"@, "zip"@, "tar"@, "gz"@, "bz2"@, "xz"@, "7z"@,
        "rar"@, "class"@, "jar"@, "wasm"@, "pak"@, "dat"@, "db"@, "sqlite"@,
    ]
}

/// How a file is shown that begins with `header` and whose name ends in
/// `extension`. A mode that was asked for is taken. Else a NUL byte among the
/// first 4096 bytes means binary, then the extension decides, and what is not
/// known to be binary is text.
pub open spec fn mode_of(header: Seq<u8>, extension: Option<Seq<char>>, default: OpenMode) -> OpenMode {
    let first = if header.len() < 4096 {
        header
    } else {
        header.subrange(0, 4096)
    };
    if default != OpenMode::Auto {
        default
    } else if first.contains(0u8) {
        OpenMode::Binary
    } else if extension is Some && binary_exts().contains(
        extension->0.map_values(|c: char| lower(c)),
    ) {
        OpenMode::Binary
    } else {
        OpenMode::Text
    }
}

/// A mode that is asked for is the mode that a file is shown in, whatever is in the
/// file and whatever its name.
pub proof fn law_mode_asked_for_is_taken(
    header: Seq<u8>,
    extension: Option<Seq<char>>,
    default: OpenMode,
)
    requires
        default != OpenMode::Auto,
    ensures
        mode_of(header, extension, default) == default,
{
}

/// A NUL byte among the first 4096 bytes makes a file a binary one, whatever its
/// name.
pub proof fn law_nul_byte_means_binary(header: Seq<u8>, extension: Option<Seq<char>>, i: int)
    requires
        0 <= i < header.len(),
        i < 4096,
        header[i] == 0,
    ensures
        mode_of(header, extension, OpenMode::Auto) == OpenMode::Binary,
{
    if header.len() < 4096 {
        assert(header.contains(header[i]));
    } else {
        assert(header.subrange(0, 4096)[i] == 0);
        assert(header.subrange(0, 4096).contains(0u8));
    }
}

/// What is behind the first 4096 bytes does not matter for the mode: files that
/// begin alike, and are called alike, are shown alike.
pub proof fn law_only_first_bytes_matter(
    header: Seq<u8>,
    more: Seq<u8>,
    extension: Option<Seq<char>>,
    default: OpenMode,
)
    requires
        header.len() >= 4096,
    ensures
        mode_of(header + more, extension, default) == mode_of(header, extension, default),
{
    assert((header + more).subrange(0, 4096) =~= header.subrange(0, 4096));
    assert(header.subrange(0, header.len() as int) =~= header);
}

/// Without a NUL byte among the first 4096 bytes the name decides. A file without
/// an extension is text. One with an extension, taken in small letters, is binary
/// if that is one of programs, pictures, sounds, films, archives or data, and text
/// otherwise.
pub proof fn law_name_decides_without_nul(header: Seq<u8>, extension: Option<Seq<char>>)
    requires
        forall|i: int| 0 <= i < header.len() && i < 4096 ==> #[trigger] header[i] != 0,
    ensures
        extension is None ==> mode_of(header, extension, OpenMode::Auto) == OpenMode::Text,
        extension matches Some(ext) ==> ({
            let e = ext.map_values(
                |c: char|
                    if 65 <= c as int <= 90 {
                        (c as int + 32) as char
                    } else {
                        c
                    },
            );
            let binary = e == "exe"@ || e == "dll"@ || e == "so"@ || e == "dylib"@
            || e == "bin"@ || e == "o"@ || e == "a"@ || e == "lib"@
            || e == "elf"@ || e == "pe"@ || e == "jpg"@ || e == "jpeg"@
            || e == "png"@ || e == "gif"@ || e == "bmp"@ || e == "webp"@
            || e == "ico"@ || e == "mp3"@ || e == "mp4"@ || e == "flac"@
            || e == "wav"@ || e == "avi"@ || e == "mkv"@ || e == "mov"@
            || e == "pdf"@ || e == "zip"@ || e == "tar"@ || e == "gz"@
            || e == "bz2"@ || e == "xz"@ || e == "7z"@ || e == "rar"@
            || e == "class"@ || e == "jar"@ || e == "wasm"@ || e == "pak"@
            || e == "dat"@ || e == "db"@ || e == "sqlite"@;
            mode_of(header, extension, OpenMode::Auto) == (if binary {
                OpenMode::Binary
            } else {
                OpenMode::Text
            })
        }),
{
    let first = if header.len() < 4096 {
        header
    } else {
        header.subrange(0, 4096)
    };
    assert forall|i: int| 0 <= i < first.len() implies first[i] != 0 by {
        assert(first[i] == header[i]);
    }
    let exts = binary_exts();
    assert(exts.len() == 39);
    assert(exts[0] == "exe"@);
    assert(exts[1] == "dll"@);
    assert(exts[2] == "so"@);
    assert(exts[3] == "dylib"@);
    assert(exts[4] == "bin"@);
    assert(exts[5] == "o"@);
    assert(exts[6] == "a"@);
    assert(exts[7] == "lib"@);
    assert(exts[8] == "elf"@);
    assert(exts[9] == "pe"@);
    assert(exts[10] == "jpg"@);
    assert(exts[11] == "jpeg"@);
    assert(exts[12] == "png"@);
    assert(exts[13] == "gif"@);
    assert(exts[14] == "bmp"@);
    assert(exts[15] == "webp"@);
    assert(exts[16] == "ico"@);
    assert(exts[17] == "mp3"@);
    assert(exts[18] == "mp4"@);
    assert(exts[19] == "flac"@);
    assert(exts[20] == "wav"@);
    assert(exts[21] == "avi"@);
    assert(exts[22] == "mkv"@);
    assert(exts[23] == "mov"@);
    assert(exts[24] == "pdf"@);
    assert(exts[25] == "zip"@);
    assert(exts[26] == "tar"@);
    assert(exts[27] == "gz"@);
    assert(exts[28] == "bz2"@);
    assert(exts[29] == "xz"@);
    assert(exts[30] == "7z"@);
    assert(exts[31] == "rar"@);
    assert(exts[32] == "class"@);
    assert(exts[33] == "jar"@);
    assert(exts[34] == "wasm"@);
    assert(exts[35] == "pak"@);
    assert(exts[36] == "dat"@);
    assert(exts[37] == "db"@);
    assert(exts[38] == "sqlite"@);
    if let Some(ext) = extension {
        assert(ext.map_values(|c: char| lower(c)) =~= ext.map_values(
            |c: char|
                if 65 <= c as int <= 90 {
                    (c as int + 32) as char
                } else {
                    c
                },
        ));
    }
}

fn to_lower(s: &str) -> (t: String)
    ensures
        t@ == s@.map_values(|c: char| lower(c)),
{
    let mut t = String::new();
    for c in it: s.chars()
        invariant
            it.seq() == s@,
            t@.len() == it.index(),
            forall|i: int| 0 <= i < it.index() ==> t@[i] == lower(s@[i]),
    {
        if 'A' <= c && c <= 'Z' {
            t.push(((c as u8) + 32) as char);
        } else {
            t.push(c);
        }
    }
    assert(t@ =~= s@.map_values(|c: char| lower(c)));
    t
}

fn is_binary_ext(ext: &str) -> (b: bool)
    ensures
        b == binary_exts().contains(ext@),
{
    let exts: Vec<&str> = vec![
        "exe", "dll", "so", "dylib", "bin", "o", "a", "lib", "elf", "pe", "jpg", "jpeg", "png",
        "gif", "bmp", "webp", "ico", "mp3", "mp4", "flac", "wav", "avi", "mkv", "mov", "pdf", "zip",
        "tar", "gz", "bz2", "xz", "7z", "rar", "class", "jar", "wasm", "pak", "dat", "db", "sqlite",
    ];
    let ghost model = binary_exts();
    assert(exts@.len() == model.len());
    assert(forall|i: int| 0 <= i < exts@.len() ==> #[trigger] exts@[i]@ == model[i]);
    let mut i: usize = 0;
    while i < exts.len()
        invariant
            i <= exts@.len() == model.len(),
            model == binary_exts(),
            forall|k: int| 0 <= k < exts@.len() ==> #[trigger] exts@[k]@ == model[k],
            forall|k: int| 0 <= k < i ==> model[k] != ext@,
        decreases exts@.len() - i,
    {
        if same_str(exts[i], ext) {
            assert(model[i as int] == ext@);
            return true;
        }
        assert(exts@[i as int]@ == model[i as int]);
        i = i + 1;
    }
    false
}

/// How a file is shown, and the encoding that its first bytes seem to be in.
pub fn detect_mode(header: &[u8], extension: Option<&str>, default: OpenMode) -> (r: (
    OpenMode,
    TextEncoding,
))
    ensures
        r.0 == mode_of(
            header@,
            match extension {
                Some(e) => Some(e@),
                None => None,
            },
            default,
        ),
        r.1.spec_name() == guessed(header@).0,
        default == OpenMode::Auto && (exists|i: int|
            0 <= i < header@.len() && i < 4096 && #[trigger] header@[i] == 0) ==> r.0
            == OpenMode::Binary,
        default != OpenMode::Auto ==> r.0 == default,
{
    proof {
        if exists|i: int| 0 <= i < header@.len() && i < 4096 && #[trigger] header@[i] == 0 {
            let i = choose|i: int| 0 <= i < header@.len() && i < 4096 && #[trigger] header@[i] == 0;
            law_nul_byte_means_binary(
                header@,
                match extension {
                    Some(e) => Some(e@),
                    None => None,
                },
                i,
            );
        }
    }
    let encoding = detect_encoding(header);
    match default {
        OpenMode::Text => {
            return (OpenMode::Text, encoding);
        },
        OpenMode::Binary => {
            return (OpenMode::Binary, encoding);
        },
        OpenMode::Auto => {},
    }
    let n: usize = if header.len() < 4096 { header.len() } else { 4096 };
    let ghost first = if header@.len() < 4096 {
        header@
    } else {
        header@.subrange(0, 4096)
    };
    let mut i: usize = 0;
    while i < n
        invariant
            i <= n == first.len(),
            n <= header@.len(),
            forall|k: int| 0 <= k < n ==> first[k] == header@[k],
            forall|k: int| 0 <= k < i ==> first[k] != 0,
            first == (if header@.len() < 4096 {
                header@
            } else {
                header@.subrange(0, 4096)
            }),
            default == OpenMode::Auto,
            encoding.spec_name() == guessed(header@).0,
        decreases n - i,
    {
        if header[i] == 0 {
            assert(first[i as int] == 0);
            return (OpenMode::Binary, encoding);
        }
        i = i + 1;
    }
    if let Some(ext) = extension {
        if is_binary_ext(to_lower(ext).as_str()) {
            return (OpenMode::Binary, encoding);
        }
    }
    (OpenMode::Text, encoding)
}

/// The text that `bytes` stand for. What is malformed is replaced, and a byte
/// order mark decides over the encoding.
pub fn decode(bytes: &[u8], encoding: &TextEncoding) -> (text: String)
    requires
        bytes@.len() <= usize::MAX / 16,
    ensures
        text@ == decoded(encoding.spec_name(), bytes@),
        encoding.spec_name() == "UTF-8"@ ==> forall|s: Seq<char>|
            (s.len() == 0 || s[0] != '\u{feff}') && #[trigger] vstd::utf8::encode_utf8(s) == bytes@
                ==> text@ == s,
{
    proof {
        use_type_invariant(encoding);
    }
    decode_as(encoding.name.as_str(), bytes)
}

/// The bytes that stand for `s`.
pub fn encode(s: &str, encoding: &TextEncoding) -> (bytes: Vec<u8>)
    requires
        vstd::utf8::encode_utf8(s@).len() <= usize::MAX / 16,
    ensures
        bytes@ == encoded(encoding.spec_name(), s@),
        encoding.spec_name() == "UTF-8"@ ==> bytes@ == vstd::utf8::encode_utf8(s@),
{
    proof {
        use_type_invariant(encoding);
    }
    encode_as(encoding.name.as_str(), s)
}

} // verus!
