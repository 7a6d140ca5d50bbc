//! Links to the wiki's pictures of items.

use md5::{Digest, Md5};
use vstd::prelude::*;

verus! {

/// The MD5 digest of the UTF-8 encoding of `text`.
pub uninterp spec fn md5_digest_of(text: Seq<char>) -> Seq<u8>;

/// Calls `md5::Md5::digest` (the `Digest` trait of the md-5 crate) on the
/// UTF-8 bytes of `text`. Trusted: the result is the digest named by
/// `md5_digest_of` for these characters, and it is sixteen bytes long (the
/// output size that md-5 declares for `Md5Core`).
#[verifier::external_body]
fn md5_digest(text: &str) -> (digest: Vec<u8>)
    ensures
        digest@ == md5_digest_of(text@),
        digest@.len() == 16,
{
    Md5::digest(text.as_bytes()).to_vec()
}

/// `name` with every space turned into an underscore.
pub open spec fn underscored(name: Seq<char>) -> Seq<char> {
    name.map_values(|c: char| if c == ' ' { '_' } else { c })
}

/// The file name of the picture of the item `name`.
pub open spec fn picture_name(name: Seq<char>) -> Seq<char> {
    underscored(name) + seq!['.', 'p', 'n', 'g']
}

/// The lower-case hexadecimal digit of `v` (below sixteen).
pub open spec fn hex_digit(v: int) -> char {
    seq!['0', '1', '2', '3', '4', '5', '6', '7', '8', '9', 'a', 'b', 'c', 'd', 'e', 'f'][v]
}

/// `hex_digit` gives the standard lower-case hexadecimal digit: `0`-`9`
/// for values below ten, then `a`-`f`.
pub proof fn lemma_hex_digit_lower_case(v: int)
    requires
        0 <= v < 16,
    ensures
        hex_digit(v) as int == if v < 10 {
            '0' as int + v
        } else {
            'a' as int + v - 10
        },
{
    let t = seq!['0', '1', '2', '3', '4', '5', '6', '7', '8', '9', 'a', 'b', 'c', 'd', 'e', 'f'];
    assert(hex_digit(v) == t[v]);
    // one digit at a time
    if v == 0 {
        assert(t[v] == '0');
    } else if v == 1 {
        assert(t[v] == '1');
    } else if v == 2 {
        assert(t[v] == '2');
    } else if v == 3 {
        assert(t[v] == '3');
    } else if v == 4 {
        assert(t[v] == '4');
    } else if v == 5 {
        assert(t[v] == '5');
    } else if v == 6 {
        assert(t[v] == '6');
    } else if v == 7 {
        assert(t[v] == '7');
    } else if v == 8 {
        assert(t[v] == '8');
    } else if v == 9 {
        assert(t[v] == '9');
    } else if v == 10 {
        assert(t[v] == 'a');
    } else if v == 11 {
        assert(t[v] == 'b');
    } else if v == 12 {
        assert(t[v] == 'c');
    } else if v == 13 {
        assert(t[v] == 'd');
    } else if v == 14 {
        assert(t[v] == 'e');
    } else {
        assert(t[v] == 'f');
    }
}

/// The address of the picture `pic` on the wiki, placed by the first byte of its digest.
pub open spec fn image_link(pic: Seq<char>, digest: Seq<u8>) -> Seq<char> {
    let high = hex_digit(digest[0] as int / 16);
    let low = hex_digit(digest[0] as int % 16);
    "https://satisfactory.wiki.gg/images/"@ + seq![high, '/', high, low, '/'] + pic
}

/// The link of `pic` shows the first byte of `digest` in lower-case
/// hexadecimal: after the site's image directory come the high digit, `/`,
/// the high and low digits, `/`, and the picture name.
pub proof fn lemma_image_link_layout(pic: Seq<char>, digest: Seq<u8>)
    requires
        digest.len() >= 1,
    ensures
        image_link(pic, digest).len() == 41 + pic.len(),
        image_link(pic, digest).subrange(0, 36) == "https://satisfactory.wiki.gg/images/"@,
        image_link(pic, digest)[36] as int == if digest[0] / 16 < 10 {
            '0' as int + digest[0] / 16
        } else {
            'a' as int + digest[0] / 16 - 10
        },
        image_link(pic, digest)[37] == '/',
        image_link(pic, digest)[38] == image_link(pic, digest)[36],
        image_link(pic, digest)[39] as int == if digest[0] % 16 < 10 {
            '0' as int + digest[0] % 16
        } else {
            'a' as int + digest[0] % 16 - 10
        },
        image_link(pic, digest)[40] == '/',
        image_link(pic, digest).skip(41) == pic,
{
    reveal_strlit("https://satisfactory.wiki.gg/images/");
    let b = digest[0] as int;
    lemma_hex_digit_lower_case(b / 16);
    lemma_hex_digit_lower_case(b % 16);
    let link = image_link(pic, digest);
    let prefix = "https://satisfactory.wiki.gg/images/"@;
    assert(prefix.len() == 36);
    assert(link.subrange(0, 36) =~= prefix);
    assert(link.skip(41) =~= pic);
}

/// The picture of `name` is `name` with each space replaced by an
/// underscore (every other character kept), followed by `.png`.
pub proof fn lemma_picture_name_layout(name: Seq<char>)
    ensures
        picture_name(name).len() == name.len() + 4,
        forall|i: int| 0 <= i < name.len() ==> #[trigger] picture_name(name)[i] == if name[i] == ' ' {
            '_'
        } else {
            name[i]
        },
        picture_name(name).skip(name.len() as int) == seq!['.', 'p', 'n', 'g'],
{
    assert(picture_name(name).skip(name.len() as int) =~= seq!['.', 'p', 'n', 'g']);
}

/// The file name of the picture of the item `name`.
pub fn picture_file_name(name: &str) -> (pic: String)
    ensures
        pic@ == picture_name(name@),
{
    let len = name.unicode_len();
    let mut pic = String::new();
    let mut i: usize = 0;
    while i < len
        invariant
            len == name@.len(),
            i <= len,
            pic@ == underscored(name@).take(i as int),
        decreases len - i,
    {
        let c = name.get_char(i);
        if c == ' ' {
            proof {
                reveal_strlit("_");
            }
            pic.append("_");
        } else {
            pic.append(name.substring_char(i, i + 1));
        }
        assert(pic@ =~= underscored(name@).take(i + 1));
        i = i + 1;
    }
    proof {
        reveal_strlit(".png");
    }
    pic.append(".png");
    assert(underscored(name@).take(len as int) =~= underscored(name@));
    assert(pic@ =~= picture_name(name@));
    pic
}

/// The hexadecimal digit of `v`, as a string.
fn hex_digit_str(v: u8) -> (s: &'static str)
    requires
        v < 16,
    ensures
        s@ == seq![hex_digit(v as int)],
        s@[0] as int == if v < 10 {
            '0' as int + v
        } else {
            'a' as int + v - 10
        },
{
    proof {
        lemma_hex_digit_lower_case(v as int);
    }
    proof {
        reveal_strlit("0123456789abcdef");
    }
    let digits = "0123456789abcdef";
    let s = digits.substring_char(v as usize, v as usize + 1);
    assert(s@ =~= seq![hex_digit(v as int)]);
    s
}

/// The address of the picture `picture` given the MD5 digest of its name.
pub fn image_link_from_digest(picture: &String, digest: &Vec<u8>) -> (link: String)
    requires
        digest@.len() >= 1,
    ensures
        link@ == image_link(picture@, digest@),
{
    let first = digest[0];
    let high = hex_digit_str(first / 16);
    let low = hex_digit_str(first % 16);
    proof {
        reveal_strlit("https://satisfactory.wiki.gg/images/");
        reveal_strlit("/");
    }
    let mut link = String::from_str("https://satisfactory.wiki.gg/images/");
    link.append(high);
    link.append("/");
    link.append(high);
    link.append(low);
    link.append("/");
    link.append(picture.as_str());
    assert(link@ =~= image_link(picture@, digest@));
    link
}

/// The address of the wiki's picture of the item `name`: the picture is
/// `name` with spaces turned into underscores and `.png` appended, filed
/// under the first one and two hexadecimal digits of the MD5 digest of that
/// file name.
pub fn generate_item_image_link(name: &str) -> (link: String)
    ensures
        link@ == image_link(picture_name(name@), md5_digest_of(picture_name(name@))),
{
    let pic = picture_file_name(name);
    let digest = md5_digest(pic.as_str());
    image_link_from_digest(&pic, &digest)
}

} // verus!
