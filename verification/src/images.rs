//! Decoding and encoding of images, and the store of the images embedded
//! in a document.
use vstd::prelude::*;
use crate::chars::str_eq;
use crate::data_url::{
    base64_encoded, data_url_fits, decode_base64, decoded_data_url, ok_bytes, png_data_url, png_data_url_fits,
    png_data_url_prefix,
};

verus! {

/// A decoded image of any pixel format (`image::DynamicImage`).
#[verifier::external_type_specification]
#[verifier::external_body]
pub struct ExDynamicImage(image::DynamicImage);

/// The message of the error `image::load_from_memory` reports for `bytes`,
/// or `None` when they decode.
pub uninterp spec fn image_load_error(bytes: Seq<u8>) -> Option<Seq<char>>;

/// The image `image::load_from_memory` decodes from `bytes` (meaningful
/// when they decode).
pub uninterp spec fn decoded_image(bytes: Seq<u8>) -> image::DynamicImage;

/// What `image::DynamicImage::write_to` with `ImageFormat::Png` writes for
/// an image: the PNG bytes, or the message of its error.
pub uninterp spec fn png_encoded(img: image::DynamicImage) -> Result<Seq<u8>, Seq<char>>;

/// Decodes an image in any supported format (`image::load_from_memory`).
/// Whether it succeeds, the error message and the image depend on the
/// bytes only.
#[verifier::external_body]
pub(crate) fn load_image(bytes: &[u8]) -> (r: Result<image::DynamicImage, String>)
    ensures
        match r {
            Ok(img) => image_load_error(bytes@) is None && img == decoded_image(bytes@),
            Err(m) => image_load_error(bytes@) == Some(m@),
        },
{
    image::load_from_memory(bytes).map_err(|e| e.to_string())
}

/// Encodes an image as PNG (`image::DynamicImage::write_to` with
/// `ImageFormat::Png`); a failure is reported by the error's message.  The
/// outcome depends on the image only; like any `Vec<u8>` the bytes number
/// at most `isize::MAX`.
#[verifier::external_body]
pub(crate) fn encode_png(img: &image::DynamicImage) -> (r: Result<Vec<u8>, String>)
    ensures
        match r {
            Ok(b) => png_encoded(*img) == Ok::<Seq<u8>, Seq<char>>(b@) && b@.len() <= isize::MAX,
            Err(m) => png_encoded(*img) == Err::<Seq<u8>, Seq<char>>(m@),
        },
{
    let mut buf = std::io::Cursor::new(Vec::new());
    img.write_to(&mut buf, image::ImageFormat::Png).map_err(|e| e.to_string())?;
    Ok(buf.into_inner())
}

/// Decodes an image sent as a data URL (or bare base64): the base64 error,
/// or the image error, or the image.
pub fn decode_base64_image(data: &str) -> (r: Result<image::DynamicImage, String>)
    ensures
        match decoded_data_url(data@) {
            Err(m) => r matches Err(m2) && m2@ == m,
            Ok(bytes) => match image_load_error(bytes) {
                Some(m) => r matches Err(m2) && m2@ == m,
                None => r matches Ok(img) && img == decoded_image(bytes),
            },
        },
{
    let bytes = decode_base64(data)?;
    load_image(&bytes)
}

/// What is answered for the outcome of PNG encoding: the data URL of the
/// PNG bytes, or the encoder's message.
pub fn png_data_url_of(png: Result<Vec<u8>, String>) -> (r: Result<String, String>)
    requires
        png matches Ok(b) ==> data_url_fits(png_data_url_prefix(), b@.len()),
    ensures
        match png {
            Ok(b) => r matches Ok(s) && s@ == png_data_url_prefix() + base64_encoded(b@) && decoded_data_url(
                s@,
            ) == ok_bytes(b@),
            Err(m) => r == Err::<String, String>(m),
        },
{
    match png {
        Ok(b) => Ok(png_data_url(&b)),
        Err(m) => Err(m),
    }
}

/// An image encoded as a PNG data URL: the data URL of the PNG the encoder
/// writes for it, or the encoder's message.  The data URL must fit a
/// `String` (base64 encoding panics otherwise).
pub fn encode_png_base64(img: &image::DynamicImage) -> (r: Result<String, String>)
    requires
        png_encoded(*img) matches Ok(png) ==> data_url_fits(png_data_url_prefix(), png.len()),
    ensures
        match png_encoded(*img) {
            Ok(png) => r matches Ok(s) && s@ == png_data_url_prefix() + base64_encoded(png)
                && decoded_data_url(s@) == ok_bytes(png),
            Err(m) => r matches Err(e) && e@ == m,
        },
{
    let png = encode_png(img);
    png_data_url_of(png)
}

/// An image encoded as a PNG data URL, as [`encode_png_base64`] gives it,
/// or `None` when the PNG is too long for its data URL to fit a `String`.
pub fn encode_png_base64_checked(img: &image::DynamicImage) -> (r: Option<Result<String, String>>)
    ensures
        match png_encoded(*img) {
            Ok(png) => if data_url_fits(png_data_url_prefix(), png.len()) {
                r matches Some(Ok(s)) && s@ == png_data_url_prefix() + base64_encoded(png)
                    && decoded_data_url(s@) == ok_bytes(png)
            } else {
                r is None
            },
            Err(m) => r matches Some(Err(e)) && e@ == m,
        },
{
    let png = encode_png(img);
    if let Ok(b) = &png {
        if !png_data_url_fits(b.len()) {
            return None;
        }
    }
    Some(encode_png_base64(img))
}

/// The images embedded in a document, by relationship id.
pub struct ImageManager {
    images: Vec<(String, image::DynamicImage)>,
}

/// The image stored last under `id`.
pub open spec fn image_under(stored: Seq<(Seq<char>, image::DynamicImage)>, id: Seq<char>) -> Option<
    image::DynamicImage,
>
    decreases stored.len(),
{
    if stored.len() == 0 {
        None
    } else if stored.last().0 == id {
        Some(stored.last().1)
    } else {
        image_under(stored.drop_last(), id)
    }
}

/// The bytes of the last entry under `id` that decode as an image.
pub open spec fn last_decodable(entries: Seq<(Seq<char>, Seq<u8>)>, id: Seq<char>) -> Option<Seq<u8>>
    decreases entries.len(),
{
    if entries.len() == 0 {
        None
    } else if entries.last().0 == id && image_load_error(entries.last().1) is None {
        Some(entries.last().1)
    } else {
        last_decodable(entries.drop_last(), id)
    }
}

/// Embedded image entries as plain values.
pub open spec fn entries_view(entries: Seq<(String, Vec<u8>)>) -> Seq<(Seq<char>, Seq<u8>)> {
    entries.map_values(|e: (String, Vec<u8>)| (e.0@, e.1@))
}

/// No id occurs twice.
pub open spec fn ids_distinct(stored: Seq<(Seq<char>, image::DynamicImage)>) -> bool {
    forall|i: int, j: int| 0 <= i < j < stored.len() ==> (#[trigger] stored[i]).0 != (#[trigger] stored[j]).0
}

proof fn lemma_image_under_at(s: Seq<(Seq<char>, image::DynamicImage)>, k: int)
    requires
        ids_distinct(s),
        0 <= k < s.len(),
    ensures
        image_under(s, s[k].0) == Some(s[k].1),
    decreases s.len(),
{
    if k < s.len() - 1 {
        assert(s[k].0 != s[s.len() - 1].0);
        assert(s.drop_last()[k] == s[k]);
        assert(ids_distinct(s.drop_last())) by {
            assert forall|i: int, j: int| 0 <= i < j < s.drop_last().len() implies (
            #[trigger] s.drop_last()[i]).0 != (#[trigger] s.drop_last()[j]).0 by {
                assert(s.drop_last()[i] == s[i] && s.drop_last()[j] == s[j]);
            }
        }
        lemma_image_under_at(s.drop_last(), k);
    }
}

proof fn lemma_image_under_none(s: Seq<(Seq<char>, image::DynamicImage)>, id: Seq<char>)
    requires
        forall|i: int| 0 <= i < s.len() ==> (#[trigger] s[i]).0 != id,
    ensures
        image_under(s, id) is None,
    decreases s.len(),
{
    if s.len() > 0 {
        assert(s[s.len() - 1].0 != id);
        assert forall|i: int| 0 <= i < s.drop_last().len() implies (#[trigger] s.drop_last()[i]).0 != id by {
            assert(s.drop_last()[i] == s[i]);
        }
        lemma_image_under_none(s.drop_last(), id);
    }
}

/// `image_under` of a table with distinct ids, through one of its entries.
proof fn lemma_image_under_is(s: Seq<(Seq<char>, image::DynamicImage)>, id: Seq<char>)
    requires
        ids_distinct(s),
    ensures
        image_under(s, id) matches Some(img) ==> exists|k: int| 0 <= k < s.len() && s[k] == (id, img),
        image_under(s, id) is None ==> forall|i: int| 0 <= i < s.len() ==> (#[trigger] s[i]).0 != id,
{
    if exists|k: int| 0 <= k < s.len() && s[k].0 == id {
        let k = choose|k: int| 0 <= k < s.len() && s[k].0 == id;
        lemma_image_under_at(s, k);
        assert(s[k] == (id, s[k].1));
    } else {
        lemma_image_under_none(s, id);
    }
}

impl ImageManager {
    /// The stored ids and images, in the order they were first stored.
    pub closed spec fn stored(&self) -> Seq<(Seq<char>, image::DynamicImage)> {
        self.images@.map_values(|e: (String, image::DynamicImage)| (e.0@, e.1))
    }

    /// The image stored under `id`.
    pub open spec fn image_for(&self, id: Seq<char>) -> Option<image::DynamicImage> {
        image_under(self.stored(), id)
    }

    /// No id is stored twice.
    pub open spec fn well_formed(&self) -> bool {
        ids_distinct(self.stored())
    }

    /// Decodes every embedded image given as (relationship id, bytes); those
    /// that do not decode are left out, and a later image replaces an
    /// earlier one with the same id: the image under an id is the one
    /// decoded from the last entry with that id that decodes.
    pub fn new(entries: &Vec<(String, Vec<u8>)>) -> (r: Self)
        ensures
            r.well_formed(),
            forall|id: Seq<char>|
                #[trigger] r.image_for(id) == (match last_decodable(entries_view(entries@), id) {
                    Some(b) => Some(decoded_image(b)),
                    None => None,
                }),
    {
        let ghost ev = entries_view(entries@);
        let mut m = ImageManager { images: Vec::new() };
        let mut i: usize = 0;
        while i < entries.len()
            invariant
                i <= entries@.len(),
                ev == entries_view(entries@),
                m.well_formed(),
                forall|id: Seq<char>|
                    #[trigger] m.image_for(id) == (match last_decodable(ev.take(i as int), id) {
                        Some(b) => Some(decoded_image(b)),
                        None => None,
                    }),
            decreases entries.len() - i,
        {
            assert(ev.take(i + 1).drop_last() =~= ev.take(i as int));
            assert(ev.take(i + 1).last() == (entries@[i as int].0@, entries@[i as int].1@));
            match load_image(&entries[i].1) {
                Ok(img) => {
                    m.insert(entries[i].0.clone(), img);
                },
                Err(_) => {},
            }
            i = i + 1;
        }
        assert(ev.take(entries@.len() as int) =~= ev);
        m
    }

    /// Stores `img` under `id`, replacing an image with the same id.
    fn insert(&mut self, id: String, img: image::DynamicImage)
        requires
            old(self).well_formed(),
        ensures
            final(self).well_formed(),
            forall|x: Seq<char>| #[trigger] final(self).image_for(x) == if x == id@ {
                Some(img)
            } else {
                old(self).image_for(x)
            },
    {
        let ghost before = self.stored();
        let ghost key = id@;
        let mut k: usize = 0;
        while k < self.images.len()
            invariant
                k <= self.images@.len(),
                self.stored() == before,
                before == old(self).stored(),
                key == id@,
                ids_distinct(before),
                forall|j: int| 0 <= j < k ==> (#[trigger] before[j]).0 != key,
            decreases self.images.len() - k,
        {
            assert(before[k as int].0 == self.images@[k as int].0@);
            if str_eq(self.images[k].0.as_str(), id.as_str()) {
                self.images.set(k, (id, img));
                proof {
                    let after = before.update(k as int, (key, img));
                    assert(self.stored() =~= after);
                    assert(ids_distinct(after)) by {
                        assert forall|i: int, j: int| 0 <= i < j < after.len() implies (#[trigger] after[i]).0
                            != (#[trigger] after[j]).0 by {
                            assert(after[i].0 == before[i].0 && after[j].0 == before[j].0);
                        }
                    }
                    assert forall|x: Seq<char>| #[trigger] image_under(after, x) == if x == key {
                        Some(img)
                    } else {
                        image_under(before, x)
                    } by {
                        if x == key {
                            lemma_image_under_at(after, k as int);
                        } else {
                            lemma_image_under_is(before, x);
                            lemma_image_under_is(after, x);
                            if exists|j: int| 0 <= j < before.len() && before[j].0 == x {
                                let j = choose|j: int| 0 <= j < before.len() && before[j].0 == x;
                                assert(after[j] == before[j]);
                                lemma_image_under_at(before, j);
                                lemma_image_under_at(after, j);
                            } else {
                                assert forall|j: int| 0 <= j < after.len() implies (#[trigger] after[j]).0 != x by {
                                    if j != k {
                                        assert(after[j] == before[j]);
                                    }
                                }
                                lemma_image_under_none(after, x);
                                lemma_image_under_none(before, x);
                            }
                        }
                    }
                }
                return;
            }
            k = k + 1;
        }
        self.images.push((id, img));
        proof {
            let after = before.push((key, img));
            assert(self.stored() =~= after);
            assert(after.drop_last() =~= before);
            assert(ids_distinct(after)) by {
                assert forall|i: int, j: int| 0 <= i < j < after.len() implies (#[trigger] after[i]).0
                    != (#[trigger] after[j]).0 by {
                    assert(after[i] == before[i]);
                    if j < before.len() {
                        assert(after[j] == before[j]);
                    }
                }
            }
        }
    }

    /// The image stored under this relationship id, if one was decoded.
    pub fn get(&self, id: &str) -> (r: Option<&image::DynamicImage>)
        ensures
            match self.image_for(id@) {
                Some(img) => r matches Some(x) && *x == img,
                None => r is None,
            },
    {
        let ghost view = self.stored();
        let mut k: usize = self.images.len();
        assert(view.take(k as int) =~= view);
        while k > 0
            invariant
                k <= self.images@.len(),
                view == self.stored(),
                image_under(view, id@) == image_under(view.take(k as int), id@),
            decreases k,
        {
            assert(view.take(k as int).drop_last() =~= view.take(k - 1));
            assert(view.take(k as int).last() == (self.images@[k - 1].0@, self.images@[k - 1].1));
            if str_eq(self.images[k - 1].0.as_str(), id) {
                return Some(&self.images[k - 1].1);
            }
            k = k - 1;
        }
        None
    }
}

} // verus!
