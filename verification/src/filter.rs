use vstd::prelude::*;

verus! {

/// Whether the content starts with the given bytes.
pub open spec fn starts_with(content: Seq<u8>, prefix: Seq<u8>) -> bool {
    prefix.len() <= content.len() && content.subrange(0, prefix.len() as int) == prefix
}

/// Whether the content starts with a byte order mark of UTF-8, UTF-16 or UTF-32.
pub open spec fn has_byte_order_mark(content: Seq<u8>) -> bool {
    ||| starts_with(content, seq![0xefu8, 0xbbu8, 0xbfu8])
    ||| starts_with(content, seq![0x00u8, 0x00u8, 0xfeu8, 0xffu8])
    ||| starts_with(content, seq![0xffu8, 0xfeu8, 0x00u8, 0x00u8])
    ||| starts_with(content, seq![0xfeu8, 0xffu8])
    ||| starts_with(content, seq![0xffu8, 0xfeu8])
}

/// Whether the content counts as binary: it starts with no byte order mark, and one of its
/// first 1024 bytes is zero or it starts with `%PDF` or with the signature of a PNG file.
pub open spec fn looks_binary(content: Seq<u8>) -> bool {
    &&& !has_byte_order_mark(content)
    &&& {
        ||| exists|i: int| 0 <= i < content.len() && i < 1024 && content[i] == 0
        ||| starts_with(content, seq![0x25u8, 0x50u8, 0x44u8, 0x46u8])
        ||| starts_with(content, seq![0x89u8, 0x50u8, 0x4eu8, 0x47u8])
    }
}

/// The extension under which a file is looked up in a list of excluded extensions: its
/// own, or the empty string where it has none.
pub open spec fn listed_extension(file_extension: Option<&str>) -> Seq<char> {
    match file_extension {
        Some(extension) => extension@,
        None => Seq::empty(),
    }
}

/// Whether a file is left out of the statistics: because binary files are left out and the
/// start of its content, where it could be read, counts as binary; or because its
/// extension is one of the excluded ones.
pub open spec fn excluded(
    exclude_binary: bool,
    content: Option<&[u8]>,
    exclude_by_type: Seq<String>,
    file_extension: Option<&str>,
) -> bool {
    ||| exclude_binary && (content matches Some(bytes) && looks_binary(bytes@))
    ||| exists|i: int|
        0 <= i < exclude_by_type.len() && (#[trigger] exclude_by_type[i])@ == listed_extension(
            file_extension,
        )
}

/// Whether the content starts with the two bytes.
fn starts_with_2(content: &[u8], a: u8, b: u8) -> (r: bool)
    ensures
        r == starts_with(content@, seq![a, b]),
{
    let r = content.len() >= 2 && content[0] == a && content[1] == b;
    proof {
        if r {
            assert(content@.subrange(0, 2) =~= seq![a, b]);
        } else if content.len() >= 2 {
            assert(content@.subrange(0, 2)[0] == content@[0]);
            assert(content@.subrange(0, 2)[1] == content@[1]);
        }
    }
    r
}

/// Whether the content starts with the three bytes.
fn starts_with_3(content: &[u8], a: u8, b: u8, c: u8) -> (r: bool)
    ensures
        r == starts_with(content@, seq![a, b, c]),
{
    let r = content.len() >= 3 && content[0] == a && content[1] == b && content[2] == c;
    proof {
        if r {
            assert(content@.subrange(0, 3) =~= seq![a, b, c]);
        } else if content.len() >= 3 {
            assert(content@.subrange(0, 3)[0] == content@[0]);
            assert(content@.subrange(0, 3)[1] == content@[1]);
            assert(content@.subrange(0, 3)[2] == content@[2]);
        }
    }
    r
}

/// Whether the content starts with the four bytes.
fn starts_with_4(content: &[u8], a: u8, b: u8, c: u8, d: u8) -> (r: bool)
    ensures
        r == starts_with(content@, seq![a, b, c, d]),
{
    let r = content.len() >= 4 && content[0] == a && content[1] == b && content[2] == c
        && content[3] == d;
    proof {
        if r {
            assert(content@.subrange(0, 4) =~= seq![a, b, c, d]);
        } else if content.len() >= 4 {
            assert(content@.subrange(0, 4)[0] == content@[0]);
            assert(content@.subrange(0, 4)[1] == content@[1]);
            assert(content@.subrange(0, 4)[2] == content@[2]);
            assert(content@.subrange(0, 4)[3] == content@[3]);
        }
    }
    r
}

/// Whether the content counts as binary.
pub fn is_binary(content: &[u8]) -> (binary: bool)
    ensures
        binary == looks_binary(content@),
{
    if starts_with_3(content, 0xef, 0xbb, 0xbf) || starts_with_4(content, 0x00, 0x00, 0xfe, 0xff)
        || starts_with_4(content, 0xff, 0xfe, 0x00, 0x00) || starts_with_2(content, 0xfe, 0xff)
        || starts_with_2(content, 0xff, 0xfe) {
        return false;
    }
    let mut i: usize = 0;
    while i < content.len() && i < 1024
        invariant
            i <= content.len(),
            i <= 1024,
            !has_byte_order_mark(content@),
            forall|j: int| 0 <= j < i ==> content@[j] != 0,
        decreases content.len() - i,
    {
        if content[i] == 0 {
            assert(content@[i as int] == 0);
            return true;
        }
        i += 1;
    }
    starts_with_4(content, 0x25, 0x50, 0x44, 0x46) || starts_with_4(content, 0x89, 0x50, 0x4e, 0x47)
}

/// Whether a tracked file is left out of the statistics. `content` is the start of the
/// file's content, or nothing where the file was not read; `file_extension` is the file's
/// extension, if it has one.
pub fn is_excluded(
    exclude_binary: bool,
    content: Option<&[u8]>,
    exclude_by_type: &Vec<String>,
    file_extension: Option<&str>,
) -> (left_out: bool)
    ensures
        left_out == excluded(exclude_binary, content, exclude_by_type@, file_extension),
{
    if exclude_binary {
        match content {
            Some(bytes) => {
                if is_binary(bytes) {
                    return true;
                }
            },
            None => {},
        }
    }
    let extension: String = match file_extension {
        Some(extension) => extension.to_owned(),
        None => String::new(),
    };
    let mut i: usize = 0;
    while i < exclude_by_type.len()
        invariant
            i <= exclude_by_type.len(),
            extension@ == listed_extension(file_extension),
            forall|j: int| 0 <= j < i ==> (#[trigger] exclude_by_type[j])@ != extension@,
        decreases exclude_by_type.len() - i,
    {
        if exclude_by_type[i] == extension {
            return true;
        }
        i += 1;
    }
    false
}

} // verus!
