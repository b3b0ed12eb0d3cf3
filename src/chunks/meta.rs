use vstd::prelude::*;
use vstd::utf8::{decode_utf8, encode_utf8, valid_utf8};

use crate::io::{push_all, slice_subrange};
use crate::chunks::xmet::{field_end, next_field, values_view};
use crate::error::{IllegalMetaKey, ReadError, ReadErrorKind};
use crate::{date_from, date_of, find_byte_from, Date};
use crate::text::utf8_to_string;

verus! {

/// The keys of META records.
#[derive(Debug, Clone, Copy, PartialEq, Eq, Structural)]
pub enum MetaKey {
    Title,
    CreatedAt,
    Author,
    License,
    Links,
    Comment,
}

impl MetaKey {
    pub open spec fn spec_byte(self) -> u8 {
        match self {
            MetaKey::Title => 1,
            MetaKey::CreatedAt => 2,
            MetaKey::Author => 3,
            MetaKey::License => 4,
            MetaKey::Links => 5,
            MetaKey::Comment => 6,
        }
    }

    /// The key a record byte names; bytes outside 1 to 6 are refused.
    pub fn try_from(value: u8) -> (r: Result<MetaKey, IllegalMetaKey>)
        ensures
            r is Ok <==> 1 <= value <= 6,
            r is Ok ==> r->Ok_0.spec_byte() == value,
            r is Err ==> r->Err_0.key == value,
    {
        match value {
            1 => Ok(MetaKey::Title),
            2 => Ok(MetaKey::CreatedAt),
            3 => Ok(MetaKey::Author),
            4 => Ok(MetaKey::License),
            5 => Ok(MetaKey::Links),
            6 => Ok(MetaKey::Comment),
            _ => Err(IllegalMetaKey::with_message(value, "illegal meta key")),
        }
    }

    pub fn to_byte(self) -> (r: u8)
        ensures
            r == self.spec_byte(),
    {
        match self {
            MetaKey::Title => 1,
            MetaKey::CreatedAt => 2,
            MetaKey::Author => 3,
            MetaKey::License => 4,
            MetaKey::Links => 5,
            MetaKey::Comment => 6,
        }
    }
}

/// What a META chunk holds.
pub struct MetaModel {
    pub title: Seq<char>,
    pub created_at: Date,
    pub author: Seq<Seq<char>>,
    pub license: Seq<Seq<char>>,
    pub links: Seq<Seq<char>>,
    pub comment: Seq<char>,
}

pub open spec fn empty_meta() -> MetaModel {
    MetaModel {
        title: Seq::empty(),
        created_at: Date::spec_new(0, 0, 0),
        author: Seq::empty(),
        license: Seq::empty(),
        links: Seq::empty(),
        comment: Seq::empty(),
    }
}

/// The effect of one record `key value`: the title is replaced, a date
/// that parses replaces the creation date, list entries are appended, and
/// comments are joined by newlines. Unknown keys are skipped.
pub open spec fn meta_step(m: MetaModel, key: u8, raw: Seq<u8>) -> MetaModel {
    let v = decode_utf8(raw);
    if key == 1 {
        MetaModel { title: v, ..m }
    } else if key == 2 {
        match date_of(raw) {
            Some(d) => MetaModel { created_at: date_from(d), ..m },
            None => m,
        }
    } else if key == 3 {
        MetaModel { author: m.author.push(v), ..m }
    } else if key == 4 {
        MetaModel { license: m.license.push(v), ..m }
    } else if key == 5 {
        MetaModel { links: m.links.push(v), ..m }
    } else if key == 6 {
        MetaModel {
            comment: if m.comment.len() == 0 {
                v
            } else {
                m.comment + seq!['\n'] + v
            },
            ..m
        }
    } else {
        m
    }
}

/// What a META payload holds from `pos` on, applied to `m`: records
/// `key value NUL` up to a zero key or the end of the payload; a final value
/// without its NUL still counts. `None` when a value is not UTF-8.
pub open spec fn meta_from(b: Seq<u8>, pos: nat, m: MetaModel) -> Option<MetaModel>
    decreases b.len() - pos,
{
    if pos >= b.len() || b[pos as int] == 0 {
        Some(m)
    } else {
        let raw = b.subrange((pos + 1) as int, field_end(b, pos + 1) as int);
        if !valid_utf8(raw) {
            None
        } else if next_field(b, pos + 1) <= pos {
            None
        } else {
            meta_from(b, next_field(b, pos + 1), meta_step(m, b[pos as int], raw))
        }
    }
}

/// One record: the key byte, the text, a NUL.
pub open spec fn record(key: u8, s: Seq<char>) -> Seq<u8> {
    seq![key] + encode_utf8(s) + seq![0u8]
}

pub open spec fn records(key: u8, vs: Seq<Seq<char>>) -> Seq<u8>
    decreases vs.len(),
{
    if vs.len() == 0 {
        Seq::empty()
    } else {
        records(key, vs.drop_last()) + record(key, vs.last())
    }
}

/// The META payload: title, creation date, authors, comment, licenses and
/// links; an empty title or comment and the empty date are left out.
pub open spec fn meta_bytes(m: MetaModel) -> Seq<u8> {
    (if m.title.len() > 0 {
        record(1, m.title)
    } else {
        Seq::empty()
    }) + (if m.created_at != Date::spec_new(0, 0, 0) {
        seq![2u8] + m.created_at.spec_text() + seq![0u8]
    } else {
        Seq::empty()
    }) + records(3, m.author) + (if m.comment.len() > 0 {
        record(6, m.comment)
    } else {
        Seq::empty()
    }) + records(4, m.license) + records(5, m.links)
}

/// Appends one record: the key byte, the text, a NUL.
pub fn push_record(writer: &mut Vec<u8>, key: u8, s: &str)
    ensures
        final(writer)@ == old(writer)@ + record(key, s@),
{
    let ghost start = writer@;
    writer.push(key);
    push_all(writer, s.as_bytes());
    writer.push(0);
    assert(writer@ =~= start + record(key, s@));
}

/// Appends one record per string, all under the same key.
pub fn push_records(writer: &mut Vec<u8>, key: u8, vs: &Vec<String>)
    ensures
        final(writer)@ == old(writer)@ + records(key, values_view(vs@)),
{
    let mut i: usize = 0;
    while i < vs.len()
        invariant
            i <= vs@.len(),
            writer@ == old(writer)@ + records(key, values_view(vs@).take(i as int)),
        decreases vs@.len() - i,
    {
        push_record(writer, key, vs[i].as_str());
        proof {
            let t = values_view(vs@).take(i + 1);
            assert(t.drop_last() =~= values_view(vs@).take(i as int));
        }
        i = i + 1;
        assert(writer@ =~= old(writer)@ + records(key, values_view(vs@).take(i as int)));
    }
    assert(values_view(vs@).take(i as int) =~= values_view(vs@));
}

/// The META chunk: a record of typed metadata.
#[derive(Debug, Clone)]
pub struct Meta {
    title: String,
    created_at: Date,
    author: Vec<String>,
    license: Vec<String>,
    links: Vec<String>,
    comment: String,
}

impl Meta {
    pub const FOURCC: [u8; 4] = [0x4D, 0x45, 0x54, 0x41];

    pub closed spec fn view(&self) -> MetaModel {
        MetaModel {
            title: self.title@,
            created_at: self.created_at,
            author: values_view(self.author@),
            license: values_view(self.license@),
            links: values_view(self.links@),
            comment: self.comment@,
        }
    }

    pub fn new() -> (r: Self)
        ensures
            r.view() == empty_meta(),
    {
        let r = Meta {
            title: String::new(),
            created_at: Date::new(0, 0, 0),
            author: Vec::new(),
            license: Vec::new(),
            links: Vec::new(),
            comment: String::new(),
        };
        assert(r.view().author =~= Seq::<Seq<char>>::empty());
        assert(r.view().license =~= Seq::<Seq<char>>::empty());
        assert(r.view().links =~= Seq::<Seq<char>>::empty());
        r
    }

    pub fn title(&self) -> (r: &str)
        ensures
            r@ == self.view().title,
    {
        self.title.as_str()
    }

    pub fn created_at(&self) -> (r: &Date)
        ensures
            *r == self.view().created_at,
    {
        &self.created_at
    }

    pub fn author(&self) -> (r: &[String])
        ensures
            values_view(r@) == self.view().author,
    {
        self.author.as_slice()
    }

    pub fn license(&self) -> (r: &[String])
        ensures
            values_view(r@) == self.view().license,
    {
        self.license.as_slice()
    }

    pub fn links(&self) -> (r: &[String])
        ensures
            values_view(r@) == self.view().links,
    {
        self.links.as_slice()
    }

    pub fn comment(&self) -> (r: &str)
        ensures
            r@ == self.view().comment,
    {
        self.comment.as_str()
    }

    pub fn set_title(&mut self, value: String)
        ensures
            final(self).view() == (MetaModel { title: value@, ..old(self).view() }),
    {
        self.title = value;
    }

    pub fn set_created_at(&mut self, value: &Date)
        ensures
            final(self).view() == (MetaModel { created_at: *value, ..old(self).view() }),
    {
        self.created_at = *value;
    }

    pub fn set_comment(&mut self, value: String)
        ensures
            final(self).view() == (MetaModel { comment: value@, ..old(self).view() }),
    {
        self.comment = value;
    }

    pub fn add_author(&mut self, value: String)
        ensures
            final(self).view() == (MetaModel { author: old(self).view().author.push(value@), ..old(self).view() }),
    {
        self.author.push(value);
        assert(values_view(self.author@) =~= old(self).view().author.push(value@));
    }

    pub fn add_license(&mut self, value: String)
        ensures
            final(self).view() == (MetaModel { license: old(self).view().license.push(value@), ..old(self).view() }),
    {
        self.license.push(value);
        assert(values_view(self.license@) =~= old(self).view().license.push(value@));
    }

    pub fn add_link(&mut self, value: String)
        ensures
            final(self).view() == (MetaModel { links: old(self).view().links.push(value@), ..old(self).view() }),
    {
        self.links.push(value);
        assert(values_view(self.links@) =~= old(self).view().links.push(value@));
    }

    /// Parses a META payload.
    pub fn read(bytes: &[u8]) -> (r: Result<Self, ReadError>)
        ensures
            match meta_from(bytes@, 0, empty_meta()) {
                Some(m) => r is Ok && r->Ok_0.view() == m,
                None => r is Err && r->Err_0.kind == ReadErrorKind::BrokenFile,
            },
    {
        let len = bytes.len();
        let mut meta = Meta::new();
        let mut pos: usize = 0;
        while pos < len
            invariant
                len == bytes@.len(),
                pos <= len,
                meta_from(bytes@, 0, empty_meta()) == meta_from(bytes@, pos as nat, meta.view()),
            decreases len - pos,
        {
            let key = bytes[pos];
            if key == 0 {
                return Ok(meta);
            }
            let e = find_byte_from(bytes, 0, pos + 1);
            let raw = slice_subrange(bytes, pos + 1, e);
            let value = match utf8_to_string(raw) {
                Some(s) => s,
                None => {
                    return Err(ReadError::with_message(ReadErrorKind::BrokenFile, "illegal UTF-8 bytes in META value"));
                },
            };
            let next = if e < len {
                e + 1
            } else {
                len
            };
            let ghost before = meta.view();
            if key == 1 {
                meta.set_title(value);
            } else if key == 2 {
                match Date::parse_bytes(raw) {
                    Ok(d) => meta.set_created_at(&d),
                    Err(_) => {},
                }
            } else if key == 3 {
                meta.add_author(value);
            } else if key == 4 {
                meta.add_license(value);
            } else if key == 5 {
                meta.add_link(value);
            } else if key == 6 {
                meta.push_comment(value.as_str());
            }
            assert(meta.view() == meta_step(before, key, raw@));
            pos = next;
        }
        Ok(meta)
    }

    /// Adds a comment line: joined to earlier comments by a newline.
    pub fn push_comment(&mut self, value: &str)
        ensures
            final(self).view() == (MetaModel {
                comment: if old(self).view().comment.len() == 0 {
                    value@
                } else {
                    old(self).view().comment + seq!['\n'] + value@
                },
                ..old(self).view()
            }),
    {
        proof {
            reveal_strlit("\n");
        }
        let ghost c0 = self.comment@;
        if !self.comment.as_str().is_empty() {
            self.comment.append("\n");
            self.comment.append(value);
            assert(self.comment@ =~= c0 + seq!['\n'] + value@);
        } else {
            self.comment.append(value);
            assert(self.comment@ =~= value@);
        }
    }

    /// Appends the META payload.
    #[verifier::rlimit(40)]
    pub fn write(&self, writer: &mut Vec<u8>)
        ensures
            final(writer)@ == old(writer)@ + meta_bytes(self.view()),
    {
        let ghost m = self.view();
        let ghost start = writer@;
        if !self.title.as_str().is_empty() {
            push_record(writer, 1, self.title.as_str());
        }
        let ghost a = writer@;
        if !self.created_at.is_null() {
            writer.push(2);
            let text = self.created_at.to_bytes();
            push_all(writer, text.as_slice());
            writer.push(0);
        }
        let ghost b = writer@;
        push_records(writer, 3, &self.author);
        let ghost c = writer@;
        if !self.comment.as_str().is_empty() {
            push_record(writer, 6, self.comment.as_str());
        }
        let ghost d = writer@;
        push_records(writer, 4, &self.license);
        let ghost e = writer@;
        push_records(writer, 5, &self.links);
        proof {
            let title_part = if m.title.len() > 0 { record(1, m.title) } else { Seq::<u8>::empty() };
            let date_part = if m.created_at != Date::spec_new(0, 0, 0) {
                seq![2u8] + m.created_at.spec_text() + seq![0u8]
            } else {
                Seq::<u8>::empty()
            };
            let comment_part = if m.comment.len() > 0 { record(6, m.comment) } else { Seq::<u8>::empty() };
            let r3 = records(3, m.author);
            let r4 = records(4, m.license);
            let r5 = records(5, m.links);
            assert(a =~= start + title_part);
            assert(b =~= a + date_part);
            assert(c == b + r3);
            assert(d =~= c + comment_part);
            assert(e == d + r4);
            assert(writer@ == e + r5);
            assert(meta_bytes(m) == title_part + date_part + r3 + comment_part + r4 + r5);
            assert(writer@ =~= start + (title_part + date_part + r3 + comment_part + r4 + r5));
        }
    }

    pub fn title_mut(&mut self) -> (r: &mut String)
        ensures
            r@ == old(self).view().title,
            final(self).view() == (MetaModel { title: final(r)@, ..old(self).view() }),
    {
        &mut self.title
    }

    pub fn created_at_mut(&mut self) -> (r: &mut Date)
        ensures
            *r == old(self).view().created_at,
            final(self).view() == (MetaModel { created_at: *final(r), ..old(self).view() }),
    {
        &mut self.created_at
    }

    pub fn author_mut(&mut self) -> (r: &mut Vec<String>)
        ensures
            values_view(r@) == old(self).view().author,
            final(self).view() == (MetaModel { author: values_view(final(r)@), ..old(self).view() }),
    {
        &mut self.author
    }

    pub fn license_mut(&mut self) -> (r: &mut Vec<String>)
        ensures
            values_view(r@) == old(self).view().license,
            final(self).view() == (MetaModel { license: values_view(final(r)@), ..old(self).view() }),
    {
        &mut self.license
    }

    pub fn links_mut(&mut self) -> (r: &mut Vec<String>)
        ensures
            values_view(r@) == old(self).view().links,
            final(self).view() == (MetaModel { links: values_view(final(r)@), ..old(self).view() }),
    {
        &mut self.links
    }

    pub fn comment_mut(&mut self) -> (r: &mut String)
        ensures
            r@ == old(self).view().comment,
            final(self).view() == (MetaModel { comment: final(r)@, ..old(self).view() }),
    {
        &mut self.comment
    }
}

} // verus!
