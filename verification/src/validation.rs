//! Checks on user input: paths, hex strings, ids, message text, and the
//! hex display of ids.

use vstd::prelude::*;
use vstd::utf8::encode_utf8;
use vstd::string::StringExecFns;
use crate::text::{decimal_string, decimal_text};

verus! {

/// Why an input was refused.
#[derive(Clone, Debug, PartialEq, Eq)]
pub enum ValidationError {
    /// The path does not exist (directory expected).
    PathDoesNotExist { path: String },
    /// The path exists but is not a directory.
    NotADirectory { path: String },
    /// The file does not exist.
    FileDoesNotExist { path: String },
    /// The path exists but is not a file.
    NotAFile { path: String },
    /// The hex string does not have twice as many characters as the
    /// expected number of bytes.
    HexWrongLength { expected_bytes: usize },
    /// The hex string holds a character that is not a hex digit.
    HexInvalidCharacters,
    /// The device id is empty.
    DeviceIdEmpty,
    /// The device id is longer than 64 bytes.
    DeviceIdTooLong,
    /// The message text is empty.
    ContentEmpty,
    /// The message text is longer than 1,000,000 bytes.
    ContentTooLong,
    /// The attachment is larger than 100 MiB.
    FileTooLarge { path: String },
}

/// The text that an error reads as.
pub open spec fn validation_error_text(e: ValidationError) -> Seq<char> {
    match e {
        ValidationError::PathDoesNotExist { path } => "Path does not exist: "@ + path@,
        ValidationError::NotADirectory { path } => "Path is not a directory: "@ + path@,
        ValidationError::FileDoesNotExist { path } => "File does not exist: "@ + path@,
        ValidationError::NotAFile { path } => "Path is not a file: "@ + path@,
        ValidationError::HexWrongLength { expected_bytes } =>
            "Hex string must be "@ + decimal_text((2 * expected_bytes) as nat) + " characters long ("@
                + decimal_text(expected_bytes as nat) + " bytes)"@,
        ValidationError::HexInvalidCharacters => "Hex string contains invalid characters"@,
        ValidationError::DeviceIdEmpty => "Device ID cannot be empty"@,
        ValidationError::DeviceIdTooLong => "Device ID too long (max 64 characters)"@,
        ValidationError::ContentEmpty => "Message content cannot be empty"@,
        ValidationError::ContentTooLong => "Message content too long (max 1MB)"@,
        ValidationError::FileTooLarge { path } => "File too large (max 100MB): "@ + path@,
    }
}

impl ValidationError {
    /// The text of the error.
    pub fn message(&self) -> (r: String)
        ensures
            r@ == validation_error_text(*self),
    {
        match self {
            ValidationError::PathDoesNotExist { path } => String::from_str("Path does not exist: ").concat(path.as_str()),
            ValidationError::NotADirectory { path } => String::from_str("Path is not a directory: ").concat(path.as_str()),
            ValidationError::FileDoesNotExist { path } => String::from_str("File does not exist: ").concat(path.as_str()),
            ValidationError::NotAFile { path } => String::from_str("Path is not a file: ").concat(path.as_str()),
            ValidationError::HexWrongLength { expected_bytes } => {
                let n = *expected_bytes as u128;
                String::from_str("Hex string must be ").concat(decimal_string(2 * n).as_str())
                    .concat(" characters long (").concat(decimal_string(n).as_str()).concat(" bytes)")
            },
            ValidationError::HexInvalidCharacters => String::from_str("Hex string contains invalid characters"),
            ValidationError::DeviceIdEmpty => String::from_str("Device ID cannot be empty"),
            ValidationError::DeviceIdTooLong => String::from_str("Device ID too long (max 64 characters)"),
            ValidationError::ContentEmpty => String::from_str("Message content cannot be empty"),
            ValidationError::ContentTooLong => String::from_str("Message content too long (max 1MB)"),
            ValidationError::FileTooLarge { path } => String::from_str("File too large (max 100MB): ").concat(path.as_str()),
        }
    }
}

/// Whether a path names something on disk (`std::path::Path::exists`).
/// Nothing is stated of the answer: it depends on the disk.
#[verifier::external_body]
fn path_exists(path: &str) -> bool {
    std::path::Path::new(path).exists()
}

/// Whether a path names a directory (`std::path::Path::is_dir`). Nothing is
/// stated of the answer: it depends on the disk.
#[verifier::external_body]
fn path_is_dir(path: &str) -> bool {
    std::path::Path::new(path).is_dir()
}

/// Whether a path names a regular file (`std::path::Path::is_file`).
/// Nothing is stated of the answer: it depends on the disk.
#[verifier::external_body]
fn path_is_file(path: &str) -> bool {
    std::path::Path::new(path).is_file()
}

/// Whether a result is an error of the given kind naming the path.
pub open spec fn path_error(r: Result<(), ValidationError>, kind: PathErrorKind, path: Seq<char>) -> bool {
    match r {
        Err(ValidationError::PathDoesNotExist { path: p }) => kind == PathErrorKind::DoesNotExist && p@ == path,
        Err(ValidationError::NotADirectory { path: p }) => kind == PathErrorKind::NotADirectory && p@ == path,
        Err(ValidationError::FileDoesNotExist { path: p }) => kind == PathErrorKind::FileDoesNotExist && p@ == path,
        Err(ValidationError::NotAFile { path: p }) => kind == PathErrorKind::NotAFile && p@ == path,
        Err(ValidationError::FileTooLarge { path: p }) => kind == PathErrorKind::TooLarge && p@ == path,
        _ => false,
    }
}

/// The kinds of error about a path.
#[derive(PartialEq, Eq, Structural)]
pub enum PathErrorKind {
    DoesNotExist,
    NotADirectory,
    FileDoesNotExist,
    NotAFile,
    TooLarge,
}

/// The verdict on a directory path, from what the disk says of it; an
/// error names the path.
pub fn check_directory(path: &str, exists: bool, is_dir: bool) -> (r: Result<(), ValidationError>)
    ensures
        !exists ==> path_error(r, PathErrorKind::DoesNotExist, path@),
        exists && !is_dir ==> path_error(r, PathErrorKind::NotADirectory, path@),
        exists && is_dir ==> r is Ok,
{
    if !exists {
        return Err(ValidationError::PathDoesNotExist { path: path.to_string() });
    }
    if !is_dir {
        return Err(ValidationError::NotADirectory { path: path.to_string() });
    }
    Ok(())
}

/// The verdict on a file path, from what the disk says of it; an error
/// names the path.
pub fn check_file(path: &str, exists: bool, is_file: bool) -> (r: Result<(), ValidationError>)
    ensures
        !exists ==> path_error(r, PathErrorKind::FileDoesNotExist, path@),
        exists && !is_file ==> path_error(r, PathErrorKind::NotAFile, path@),
        exists && is_file ==> r is Ok,
{
    if !exists {
        return Err(ValidationError::FileDoesNotExist { path: path.to_string() });
    }
    if !is_file {
        return Err(ValidationError::NotAFile { path: path.to_string() });
    }
    Ok(())
}

/// Checks that a path names an existing directory (see [`check_directory`]).
pub fn validate_directory_path(path: &str) -> (r: Result<(), ValidationError>)
    ensures
        r is Ok || path_error(r, PathErrorKind::DoesNotExist, path@) || path_error(r, PathErrorKind::NotADirectory, path@),
{
    let exists = path_exists(path);
    let is_dir = if exists { path_is_dir(path) } else { false };
    check_directory(path, exists, is_dir)
}

/// Checks that a path names an existing file (see [`check_file`]).
pub fn validate_file_path(path: &str) -> (r: Result<(), ValidationError>)
    ensures
        r is Ok || path_error(r, PathErrorKind::FileDoesNotExist, path@) || path_error(r, PathErrorKind::NotAFile, path@),
{
    let exists = path_exists(path);
    let is_file = if exists { path_is_file(path) } else { false };
    check_file(path, exists, is_file)
}

/// The largest attachment: 100 MiB.
pub const MAX_ATTACHMENT_SIZE: u64 = 104_857_600;

/// The verdict on the size of the attachment at a path; an error names
/// the path.
pub fn check_attachment_size(path: &str, size: u64) -> (r: Result<(), ValidationError>)
    ensures
        size > MAX_ATTACHMENT_SIZE ==> path_error(r, PathErrorKind::TooLarge, path@),
        size <= MAX_ATTACHMENT_SIZE ==> r is Ok,
{
    if size > MAX_ATTACHMENT_SIZE {
        return Err(ValidationError::FileTooLarge { path: path.to_string() });
    }
    Ok(())
}

/// Whether a character is an ASCII hex digit.
pub open spec fn is_hex_digit(c: char) -> bool {
    ('0' <= c <= '9') || ('a' <= c <= 'f') || ('A' <= c <= 'F')
}

/// Checks that a string is the hex form of `expected_length` bytes: twice
/// as many bytes, each an ASCII hex digit.
pub fn validate_hex_string(hex_str: &str, expected_length: usize) -> (r: Result<(), ValidationError>)
    requires
        expected_length * 2 <= usize::MAX,
    ensures
        hex_str.len() != expected_length * 2
            ==> r == Err::<(), ValidationError>(ValidationError::HexWrongLength { expected_bytes: expected_length }),
        hex_str.len() == expected_length * 2 && !(forall|i: int| 0 <= i < hex_str@.len() ==> is_hex_digit(#[trigger] hex_str@[i]))
            ==> r == Err::<(), ValidationError>(ValidationError::HexInvalidCharacters),
        hex_str.len() == expected_length * 2 && (forall|i: int| 0 <= i < hex_str@.len() ==> is_hex_digit(#[trigger] hex_str@[i]))
            ==> r is Ok,
{
    if hex_str.len() != expected_length * 2 {
        return Err(ValidationError::HexWrongLength { expected_bytes: expected_length });
    }
    if !hex_str.is_ascii() {
        proof {
            let i = choose|i: int| 0 <= i < hex_str@.len() && !('\0' <= #[trigger] hex_str@[i] <= '\u{7f}');
            assert(!is_hex_digit(hex_str@[i]));
        }
        return Err(ValidationError::HexInvalidCharacters);
    }
    let bytes = hex_str.as_bytes();
    proof {
        vstd::utf8::is_ascii_chars_encode_utf8(hex_str@);
    }
    let mut i: usize = 0;
    while i < bytes.len()
        invariant
            i <= bytes@.len(),
            hex_str.len() == expected_length * 2,
            bytes@ == encode_utf8(hex_str@),
            bytes@.len() == hex_str@.len(),
            forall|j: int| 0 <= j < hex_str@.len() ==> hex_str@[j] as u8 == #[trigger] bytes@[j],
            vstd::utf8::is_ascii_chars(hex_str@),
            forall|j: int| 0 <= j < i ==> is_hex_digit(#[trigger] hex_str@[j]),
        decreases bytes@.len() - i,
    {
        let b = bytes[i];
        proof {
            assert(hex_str@[i as int] as u8 == b);
            assert('\0' <= hex_str@[i as int] <= '\u{7f}');
        }
        if !((b >= 48 && b <= 57) || (b >= 97 && b <= 102) || (b >= 65 && b <= 70)) {
            proof { assert(!is_hex_digit(hex_str@[i as int])); }
            return Err(ValidationError::HexInvalidCharacters);
        }
        i = i + 1;
    }
    Ok(())
}

/// Checks that a string is the hex form of a 32-byte message id.
pub fn validate_message_id(message_id: &str) -> (r: Result<(), ValidationError>)
    ensures
        message_id.len() != 64
            ==> r == Err::<(), ValidationError>(ValidationError::HexWrongLength { expected_bytes: 32 }),
        message_id.len() == 64 && !(forall|i: int| 0 <= i < message_id@.len() ==> is_hex_digit(#[trigger] message_id@[i]))
            ==> r == Err::<(), ValidationError>(ValidationError::HexInvalidCharacters),
        message_id.len() == 64 && (forall|i: int| 0 <= i < message_id@.len() ==> is_hex_digit(#[trigger] message_id@[i]))
            ==> r is Ok,
{
    validate_hex_string(message_id, 32)
}

/// Checks that a device id is not empty and at most 64 bytes long.
pub fn validate_device_id(device_id: &str) -> (r: Result<(), ValidationError>)
    ensures
        device_id@.len() == 0 ==> r == Err::<(), ValidationError>(ValidationError::DeviceIdEmpty),
        device_id@.len() > 0 && device_id.len() > 64 ==> r == Err::<(), ValidationError>(ValidationError::DeviceIdTooLong),
        device_id@.len() > 0 && device_id.len() <= 64 ==> r is Ok,
{
    if device_id.is_empty() {
        return Err(ValidationError::DeviceIdEmpty);
    }
    if device_id.len() > 64 {
        return Err(ValidationError::DeviceIdTooLong);
    }
    Ok(())
}

/// Checks that a message text is not empty and at most 1,000,000 bytes.
pub fn validate_message_content(content: &str) -> (r: Result<(), ValidationError>)
    ensures
        content@.len() == 0 ==> r == Err::<(), ValidationError>(ValidationError::ContentEmpty),
        content@.len() > 0 && content.len() > 1_000_000 ==> r == Err::<(), ValidationError>(ValidationError::ContentTooLong),
        content@.len() > 0 && content.len() <= 1_000_000 ==> r is Ok,
{
    if content.is_empty() {
        return Err(ValidationError::ContentEmpty);
    }
    if content.len() > 1_000_000 {
        return Err(ValidationError::ContentTooLong);
    }
    Ok(())
}

/// The lower-case hex digit of a value below 16.
pub open spec fn hex_char(v: int) -> char {
    if v < 10 { (48 + v) as char } else { (87 + v) as char }
}

/// The lower-case hex form of bytes: two digits per byte, high half first.
pub open spec fn hex_lower(b: Seq<u8>) -> Seq<char>
    decreases b.len(),
{
    if b.len() == 0 {
        Seq::empty()
    } else {
        hex_lower(b.drop_last()).push(hex_char(b.last() as int / 16)).push(hex_char(b.last() as int % 16))
    }
}

/// Appends the lower-case hex digit of a value below 16.
fn push_hex_digit(out: &mut String, v: u8)
    requires
        v < 16,
    ensures
        final(out)@ == old(out)@ + seq![hex_char(v as int)],
{
    let s: &str = if v == 0 { "0" } else if v == 1 { "1" } else if v == 2 { "2" } else if v == 3 { "3" }
        else if v == 4 { "4" } else if v == 5 { "5" } else if v == 6 { "6" } else if v == 7 { "7" }
        else if v == 8 { "8" } else if v == 9 { "9" } else if v == 10 { "a" } else if v == 11 { "b" }
        else if v == 12 { "c" } else if v == 13 { "d" } else if v == 14 { "e" } else { "f" };
    proof {
        reveal_strlit("0"); reveal_strlit("1"); reveal_strlit("2"); reveal_strlit("3");
        reveal_strlit("4"); reveal_strlit("5"); reveal_strlit("6"); reveal_strlit("7");
        reveal_strlit("8"); reveal_strlit("9"); reveal_strlit("a"); reveal_strlit("b");
        reveal_strlit("c"); reveal_strlit("d"); reveal_strlit("e"); reveal_strlit("f");
        assert(s@ =~= seq![hex_char(v as int)]);
    }
    out.append(s);
}

/// The lower-case hex form of bytes: for each byte, the digit of its high
/// half, then that of its low half.
pub(crate) fn hex_encode(data: &[u8]) -> (r: String)
    ensures
        r@ == hex_lower(data@),
{
    let mut out = String::new();
    let mut i: usize = 0;
    while i < data.len()
        invariant
            i <= data@.len(),
            out@ == hex_lower(data@.take(i as int)),
        decreases data@.len() - i,
    {
        let b = data[i];
        push_hex_digit(&mut out, b / 16);
        push_hex_digit(&mut out, b % 16);
        proof {
            assert(data@.take(i + 1).drop_last() =~= data@.take(i as int));
            assert(out@ =~= hex_lower(data@.take(i + 1)));
        }
        i = i + 1;
    }
    proof { assert(data@.take(data@.len() as int) =~= data@); }
    out
}

/// The hex form of a message id.
pub fn format_message_id(msg_id: &[u8; 32]) -> (r: String)
    ensures
        r@ == hex_lower(msg_id@),
{
    hex_encode(msg_id.as_slice())
}

/// The short hex form of a message id: the first eight digits, "...", and
/// the last eight.
pub fn format_short_message_id(msg_id: &[u8; 32]) -> (r: String)
    ensures
        r@ == hex_lower(msg_id@).take(8) + "..."@ + hex_lower(msg_id@).skip(56),
{
    let full = hex_encode(msg_id.as_slice());
    proof { lemma_hex_lower_len(msg_id@); }
    let head = full.as_str().substring_ascii(0, 8);
    let tail = full.as_str().substring_ascii(56, 64);
    let r = String::from_str(head).concat("...").concat(tail);
    proof {
        assert(head@ =~= hex_lower(msg_id@).take(8));
        assert(tail@ =~= hex_lower(msg_id@).skip(56));
    }
    r
}

/// The hex form of bytes has two digits per byte, each an ASCII character.
pub(crate) proof fn lemma_hex_lower_len(b: Seq<u8>)
    ensures
        hex_lower(b).len() == 2 * b.len(),
        vstd::utf8::is_ascii_chars(hex_lower(b)),
    decreases b.len(),
{
    if b.len() > 0 {
        lemma_hex_lower_len(b.drop_last());
    }
}

} // verus!
