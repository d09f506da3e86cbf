//! Types shared by the events in the `m.room` namespace: sources of media files and what
//! is known about images.

use vstd::prelude::*;
use crate::assoc::{Key, VecMap};
use crate::error::Error;

verus! {

/// A copy of a list of strings.
pub fn copy_strings(list: &Vec<String>) -> (copy: Vec<String>)
    ensures
        copy.deep_view() == list.deep_view(),
{
    let mut copy: Vec<String> = Vec::new();
    let mut i: usize = 0;
    while i < list.len()
        invariant
            i <= list@.len(),
            copy@.len() == i,
            forall|t: int| 0 <= t < i ==> copy@[t]@ == list@[t]@,
        decreases list@.len() - i,
    {
        copy.push(list[i].clone());
        i += 1;
    }
    assert(copy.deep_view() =~= list.deep_view());
    copy
}

/// A copy of a table of hashes.
pub fn copy_hashes(hashes: &VecMap<String, String>) -> (copy: VecMap<String, String>)
    ensures
        copy.entries() == hashes.entries(),
        copy@ == hashes@,
{
    let mut copy: VecMap<String, String> = VecMap::new();
    let n = hashes.len();
    let mut i: usize = 0;
    assert(hashes.entries().take(0) =~= Seq::empty());
    while i < n
        invariant
            i <= n,
            n == hashes.entries().len(),
            crate::assoc::entry_keys(hashes.entries()).no_duplicates(),
            copy.entries() == hashes.entries().take(i as int),
        decreases n - i,
    {
        let ghost all = hashes.entries();
        let ghost before = all.take(i as int);
        proof {
            assert(crate::assoc::entry_keys(before) =~= crate::assoc::entry_keys(all).take(
                i as int,
            ));
            if crate::assoc::entry_keys(before).contains(all[i as int].0) {
                let t = choose|t: int|
                    0 <= t < before.len() && crate::assoc::entry_keys(before)[t] == all[i as int].0;
                assert(crate::assoc::entry_keys(all)[t] == crate::assoc::entry_keys(all)[i as int]);
            }
            assert(before.push(all[i as int]) =~= all.take(i + 1));
        }
        let value = hashes.value_at(i).clone();
        copy.insert(hashes.key_at(i).key_clone(), value);
        i += 1;
    }
    assert(hashes.entries().take(i as int) =~= hashes.entries());
    copy
}

/// A [JSON Web Key](https://tools.ietf.org/html/rfc7517#appendix-A.3) object.
///
/// To create an instance of this type, first create a `JsonWebKeyInit` and convert it
/// via `JsonWebKey::from`.
#[derive(Debug)]
pub struct JsonWebKey {
    /// Key type. Must be `oct`.
    pub kty: String,
    /// Key operations. Must at least contain `encrypt` and `decrypt`.
    pub key_ops: Vec<String>,
    /// Algorithm. Must be `A256CTR`.
    pub alg: String,
    /// The key, encoded as url-safe unpadded base64.
    pub k: String,
    /// Extractable. Must be `true`.
    pub ext: bool,
}

/// Initial set of fields of `JsonWebKey`.
#[derive(Debug)]
pub struct JsonWebKeyInit {
    /// Key type. Must be `oct`.
    pub kty: String,
    /// Key operations. Must at least contain `encrypt` and `decrypt`.
    pub key_ops: Vec<String>,
    /// Algorithm. Must be `A256CTR`.
    pub alg: String,
    /// The key, encoded as url-safe unpadded base64.
    pub k: String,
    /// Extractable. Must be `true`.
    pub ext: bool,
}

/// The mathematical value of a JSON Web Key.
pub struct JsonWebKeyView {
    pub kty: Seq<char>,
    pub key_ops: Seq<Seq<char>>,
    pub alg: Seq<char>,
    pub k: Seq<char>,
    pub ext: bool,
}

impl View for JsonWebKey {
    type V = JsonWebKeyView;

    open spec fn view(&self) -> JsonWebKeyView {
        JsonWebKeyView {
            kty: self.kty@,
            key_ops: self.key_ops.deep_view(),
            alg: self.alg@,
            k: self.k@,
            ext: self.ext,
        }
    }
}

impl View for JsonWebKeyInit {
    type V = JsonWebKeyView;

    open spec fn view(&self) -> JsonWebKeyView {
        JsonWebKeyView {
            kty: self.kty@,
            key_ops: self.key_ops.deep_view(),
            alg: self.alg@,
            k: self.k@,
            ext: self.ext,
        }
    }
}

impl JsonWebKey {
    /// The key with the fields of `init`.
    pub fn from(init: JsonWebKeyInit) -> (key: JsonWebKey)
        ensures
            key@ == init@,
    {
        let JsonWebKeyInit { kty, key_ops, alg, k, ext } = init;
        JsonWebKey { kty, key_ops, alg, k, ext }
    }

    /// A copy of the key.
    pub fn duplicate(&self) -> (key: JsonWebKey)
        ensures
            key@ == self@,
    {
        JsonWebKey {
            kty: self.kty.clone(),
            key_ops: copy_strings(&self.key_ops),
            alg: self.alg.clone(),
            k: self.k.clone(),
            ext: self.ext,
        }
    }
}

/// The mathematical value of the encryption data of a file.
pub struct EncryptedView {
    pub key: JsonWebKeyView,
    pub iv: Seq<char>,
    pub hashes: Map<Seq<char>, Seq<char>>,
    pub v: Seq<char>,
}

/// The encryption info of a file sent to a room with end-to-end encryption enabled.
#[derive(Debug)]
pub struct EncryptedContent {
    /// A JSON Web Key object.
    pub key: JsonWebKey,
    /// The 128-bit unique counter block used by AES-CTR, encoded as unpadded base64.
    pub iv: String,
    /// A map from an algorithm name to a hash of the ciphertext, encoded as unpadded base64.
    pub hashes: VecMap<String, String>,
    /// Version of the encrypted attachments protocol. Must be `v2`.
    pub v: String,
}

/// Initial set of fields of `EncryptedContent`.
#[derive(Debug)]
pub struct EncryptedContentInit {
    /// A JSON Web Key object.
    pub key: JsonWebKey,
    /// The 128-bit unique counter block used by AES-CTR, encoded as unpadded base64.
    pub iv: String,
    /// A map from an algorithm name to a hash of the ciphertext, encoded as unpadded base64.
    pub hashes: VecMap<String, String>,
    /// Version of the encrypted attachments protocol. Must be `v2`.
    pub v: String,
}

impl View for EncryptedContent {
    type V = EncryptedView;

    open spec fn view(&self) -> EncryptedView {
        EncryptedView { key: self.key@, iv: self.iv@, hashes: self.hashes@, v: self.v@ }
    }
}

impl EncryptedContent {
    /// The encryption info with the fields of `init`.
    pub fn from(init: EncryptedContentInit) -> (content: EncryptedContent)
        ensures
            content@ == (EncryptedView {
                key: init.key@,
                iv: init.iv@,
                hashes: init.hashes@,
                v: init.v@,
            }),
    {
        let EncryptedContentInit { key, iv, hashes, v } = init;
        EncryptedContent { key, iv, hashes, v }
    }
}

/// A file sent to a room with end-to-end encryption enabled.
///
/// To create an instance of this type, first create a `EncryptedFileInit` and convert it
/// via `EncryptedFile::from`.
#[derive(Debug)]
pub struct EncryptedFile {
    /// The URL to the file.
    pub url: String,
    /// A JSON Web Key object.
    pub key: JsonWebKey,
    /// The 128-bit unique counter block used by AES-CTR, encoded as unpadded base64.
    pub iv: String,
    /// A map from an algorithm name to a hash of the ciphertext, encoded as unpadded base64.
    ///
    /// Clients should support the SHA-256 hash, which uses the key sha256.
    pub hashes: VecMap<String, String>,
    /// Version of the encrypted attachments protocol. Must be `v2`.
    pub v: String,
}

/// Initial set of fields of `EncryptedFile`.
#[derive(Debug)]
pub struct EncryptedFileInit {
    /// The URL to the file.
    pub url: String,
    /// A JSON Web Key object.
    pub key: JsonWebKey,
    /// The 128-bit unique counter block used by AES-CTR, encoded as unpadded base64.
    pub iv: String,
    /// A map from an algorithm name to a hash of the ciphertext, encoded as unpadded base64.
    pub hashes: VecMap<String, String>,
    /// Version of the encrypted attachments protocol. Must be `v2`.
    pub v: String,
}

/// The mathematical value of an encrypted file: its URL and its encryption data.
pub struct EncryptedFileView {
    pub url: Seq<char>,
    pub encryption: EncryptedView,
}

impl View for EncryptedFile {
    type V = EncryptedFileView;

    open spec fn view(&self) -> EncryptedFileView {
        EncryptedFileView {
            url: self.url@,
            encryption: EncryptedView {
                key: self.key@,
                iv: self.iv@,
                hashes: self.hashes@,
                v: self.v@,
            },
        }
    }
}

impl EncryptedFile {
    /// Create an `EncryptedFile` from the given url and encryption info.
    pub fn from_extensible_content(url: &str, encryption_info: &EncryptedContent) -> (file:
        EncryptedFile)
        ensures
            file@ == (EncryptedFileView { url: url@, encryption: encryption_info@ }),
    {
        EncryptedFile {
            url: url.to_owned(),
            key: encryption_info.key.duplicate(),
            iv: encryption_info.iv.clone(),
            hashes: copy_hashes(&encryption_info.hashes),
            v: encryption_info.v.clone(),
        }
    }

    /// The file with the fields of `init`.
    pub fn from(init: EncryptedFileInit) -> (file: EncryptedFile)
        ensures
            file@ == (EncryptedFileView {
                url: init.url@,
                encryption: EncryptedView {
                    key: init.key@,
                    iv: init.iv@,
                    hashes: init.hashes@,
                    v: init.v@,
                },
            }),
    {
        let EncryptedFileInit { url, key, iv, hashes, v } = init;
        EncryptedFile { url, key, iv, hashes, v }
    }
}

/// The source of a media file.
#[derive(Debug)]
pub enum MediaSource {
    /// The MXC URI to the unencrypted media file.
    Plain(String),
    /// The encryption info of the encrypted media file.
    Encrypted(Box<EncryptedFile>),
}

/// The mathematical value of a media source.
pub enum MediaSourceView {
    Plain(Seq<char>),
    Encrypted(EncryptedFileView),
}

impl View for MediaSource {
    type V = MediaSourceView;

    open spec fn view(&self) -> MediaSourceView {
        match self {
            MediaSource::Plain(url) => MediaSourceView::Plain(url@),
            MediaSource::Encrypted(file) => MediaSourceView::Encrypted(file@),
        }
    }
}

/// The view of an optional encrypted file.
pub open spec fn option_file_view(file: Option<Box<EncryptedFile>>) -> Option<EncryptedFileView> {
    match file {
        Some(f) => Some(f@),
        None => None,
    }
}

/// The view of optional encryption info.
pub open spec fn option_encrypted_view(info: Option<Box<EncryptedContent>>) -> Option<
    EncryptedView,
> {
    match info {
        Some(c) => Some(c@),
        None => None,
    }
}

/// The view of optional encryption info.
pub open spec fn option_content_view(info: Option<EncryptedContent>) -> Option<EncryptedView> {
    match info {
        Some(c) => Some(c@),
        None => None,
    }
}

/// What an optional reference refers to.
pub open spec fn unref<A>(o: Option<&A>) -> Option<A> {
    match o {
        Some(a) => Some(*a),
        None => None,
    }
}

/// What an optional box holds.
pub open spec fn unbox<A>(o: Option<Box<A>>) -> Option<A> {
    match o {
        Some(a) => Some(*a),
        None => None,
    }
}

/// The text of the error for a media source with neither a `url` nor a `file`.
pub open spec fn missing_url_message() -> Seq<char> {
    "missing field `url`"@
}

/// The media source that a `url` field and a `file` field stand for: the file, where
/// both are there.
pub open spec fn media_source_of(url: Option<Seq<char>>, file: Option<EncryptedFileView>)
    -> Option<MediaSourceView> {
    match (url, file) {
        (_, Some(f)) => Some(MediaSourceView::Encrypted(f)),
        (Some(u), None) => Some(MediaSourceView::Plain(u)),
        (None, None) => None,
    }
}

/// The media source with the given URL and, where the file is encrypted, encryption info.
pub open spec fn media_source_from_content(url: Seq<char>, encryption_info: Option<EncryptedView>)
    -> MediaSourceView {
    match encryption_info {
        Some(encryption) => MediaSourceView::Encrypted(EncryptedFileView { url, encryption }),
        None => MediaSourceView::Plain(url),
    }
}

impl MediaSource {
    /// The URL of the source and, where the file is encrypted, its encryption info.
    pub fn into_extensible_content(self) -> (r: (String, Option<EncryptedContent>))
        ensures
            match self@ {
                MediaSourceView::Plain(url) => r.0@ == url && r.1 is None,
                MediaSourceView::Encrypted(file) => r.0@ == file.url && option_content_view(r.1)
                    == Some(file.encryption),
            },
    {
        match self {
            MediaSource::Plain(url) => (url, None),
            MediaSource::Encrypted(encrypted_file) => {
                let EncryptedFile { url, key, iv, hashes, v } = *encrypted_file;
                (url, Some(EncryptedContent::from(EncryptedContentInit { key, iv, hashes, v })))
            },
        }
    }

    /// The media source that the `url` and `file` fields of a JSON object stand for.
    ///
    /// The file is preferred if it is set; with neither field the `url` is missing.
    pub fn from_url_or_file(url: Option<String>, file: Option<Box<EncryptedFile>>) -> (r: Result<
        MediaSource,
        Error,
    >)
        ensures
            match r {
                Ok(source) => media_source_of(crate::content::option_view(url), option_file_view(file))
                    == Some(source@),
                Err(e) => media_source_of(crate::content::option_view(url), option_file_view(file))
                    is None && e == Error::SerdeJson(e->SerdeJson_0) && e->SerdeJson_0@
                    == missing_url_message(),
            },
    {
        match (url, file) {
            (None, None) => Err(Error::SerdeJson("missing field `url`".to_owned())),
            // Prefer file if it is set.
            (_, Some(file)) => Ok(MediaSource::Encrypted(file)),
            (Some(url), None) => Ok(MediaSource::Plain(url)),
        }
    }

    /// The source of a file with the given URL and encryption info.
    pub fn from_file_content(url: &str, encryption_info: &Option<Box<EncryptedContent>>) -> (source:
        MediaSource)
        ensures
            source@ == media_source_from_content(url@, option_encrypted_view(*encryption_info)),
    {
        match encryption_info {
            Some(info) => MediaSource::Encrypted(
                Box::new(EncryptedFile::from_extensible_content(url, info)),
            ),
            None => MediaSource::Plain(url.to_owned()),
        }
    }
}

/// Information about a file.
#[derive(Debug)]
pub struct FileContentInfo {
    /// The name of the file.
    pub name: Option<String>,
    /// The MIME type of the file.
    pub mimetype: Option<String>,
    /// The size of the file in bytes.
    pub size: Option<u64>,
}

/// The height and width of an image in pixels.
#[derive(Clone, Copy, Debug)]
pub struct ImageContent {
    pub height: Option<u64>,
    pub width: Option<u64>,
}

impl ImageContent {
    /// Whether neither the height nor the width is known.
    pub fn is_empty(&self) -> (b: bool)
        ensures
            b == (self.height is None && self.width is None),
    {
        self.height.is_none() && self.width.is_none()
    }
}

/// Information about the file of a thumbnail.
#[derive(Debug)]
pub struct ThumbnailFileContentInfo {
    /// The MIME type of the thumbnail.
    pub mimetype: Option<String>,
    /// The size of the thumbnail in bytes.
    pub size: Option<u64>,
}

/// The file of a thumbnail.
#[derive(Debug)]
pub struct ThumbnailFileContent {
    /// The URL to the thumbnail.
    pub url: String,
    /// Information about the file.
    pub info: Option<Box<ThumbnailFileContentInfo>>,
    /// Information on the encrypted thumbnail, where it is encrypted.
    pub encryption_info: Option<Box<EncryptedContent>>,
}

/// A thumbnail: its file and its dimensions.
#[derive(Debug)]
pub struct ThumbnailContent {
    pub file: ThumbnailFileContent,
    pub image: Option<Box<ImageContent>>,
}

/// Metadata about a thumbnail.
#[derive(Debug)]
pub struct ThumbnailInfo {
    /// The height of the thumbnail in pixels.
    pub height: Option<u64>,
    /// The width of the thumbnail in pixels.
    pub width: Option<u64>,
    /// The MIME type of the thumbnail, e.g. "image/png."
    pub mimetype: Option<String>,
    /// The file size of the thumbnail in bytes.
    pub size: Option<u64>,
}

/// The mathematical value of the metadata of a thumbnail.
pub struct ThumbnailInfoView {
    pub height: Option<u64>,
    pub width: Option<u64>,
    pub mimetype: Option<Seq<char>>,
    pub size: Option<u64>,
}

impl View for ThumbnailInfo {
    type V = ThumbnailInfoView;

    open spec fn view(&self) -> ThumbnailInfoView {
        ThumbnailInfoView {
            height: self.height,
            width: self.width,
            mimetype: crate::content::option_view(self.mimetype),
            size: self.size,
        }
    }
}

/// The metadata of a thumbnail with the given file info and image info, or `None` where
/// there is neither.
pub open spec fn thumbnail_info_of(
    file_info: Option<ThumbnailFileContentInfo>,
    image: Option<ImageContent>,
) -> Option<ThumbnailInfoView> {
    if file_info is None && image is None {
        None
    } else {
        Some(
            ThumbnailInfoView {
                height: match image {
                    Some(i) => i.height,
                    None => None,
                },
                width: match image {
                    Some(i) => i.width,
                    None => None,
                },
                mimetype: match file_info {
                    Some(f) => crate::content::option_view(f.mimetype),
                    None => None,
                },
                size: match file_info {
                    Some(f) => f.size,
                    None => None,
                },
            },
        )
    }
}

/// The view of optional metadata of a thumbnail.
pub open spec fn option_thumbnail_view(info: Option<Box<ThumbnailInfo>>) -> Option<
    ThumbnailInfoView,
> {
    match info {
        Some(i) => Some(i@),
        None => None,
    }
}

/// A copy of an optional string.
pub fn copy_option_string(text: &Option<String>) -> (copy: Option<String>)
    ensures
        crate::content::option_view(copy) == crate::content::option_view(*text),
{
    match text {
        Some(t) => Some(t.clone()),
        None => None,
    }
}

impl ThumbnailInfo {
    /// Creates an empty `ThumbnailInfo`.
    pub fn new() -> (info: ThumbnailInfo)
        ensures
            info@ == (ThumbnailInfoView { height: None, width: None, mimetype: None, size: None }),
    {
        ThumbnailInfo { height: None, width: None, mimetype: None, size: None }
    }

    /// Create a `ThumbnailInfo` with the given file info and image info.
    ///
    /// Returns `None` if `file_info` and `image` are `None`.
    pub fn from_extensible_content(
        file_info: Option<&ThumbnailFileContentInfo>,
        image: Option<&ImageContent>,
    ) -> (r: Option<ThumbnailInfo>)
        ensures
            match r {
                Some(info) => thumbnail_info_of(unref(file_info), unref(image)) == Some(info@),
                None => thumbnail_info_of(unref(file_info), unref(image)) is None,
            },
    {
        if file_info.is_none() && image.is_none() {
            None
        } else {
            let (mimetype, size) = match file_info {
                Some(info) => (copy_option_string(&info.mimetype), info.size),
                None => (None, None),
            };
            let (height, width) = match image {
                Some(content) => (content.height, content.width),
                None => (None, None),
            };
            Some(ThumbnailInfo { height, width, mimetype, size })
        }
    }
}

/// Metadata about an image.
#[derive(Debug)]
pub struct ImageInfo {
    /// The height of the image in pixels.
    pub height: Option<u64>,
    /// The width of the image in pixels.
    pub width: Option<u64>,
    /// The MIME type of the image, e.g. "image/png."
    pub mimetype: Option<String>,
    /// The file size of the image in bytes.
    pub size: Option<u64>,
    /// Metadata about the image referred to in `thumbnail_source`.
    pub thumbnail_info: Option<Box<ThumbnailInfo>>,
    /// The source of the thumbnail of the image.
    pub thumbnail_source: Option<MediaSource>,
}

/// The mathematical value of the metadata of an image.
pub struct ImageInfoView {
    pub height: Option<u64>,
    pub width: Option<u64>,
    pub mimetype: Option<Seq<char>>,
    pub size: Option<u64>,
    pub thumbnail_info: Option<ThumbnailInfoView>,
    pub thumbnail_source: Option<MediaSourceView>,
}

impl View for ImageInfo {
    type V = ImageInfoView;

    open spec fn view(&self) -> ImageInfoView {
        ImageInfoView {
            height: self.height,
            width: self.width,
            mimetype: crate::content::option_view(self.mimetype),
            size: self.size,
            thumbnail_info: option_thumbnail_view(self.thumbnail_info),
            thumbnail_source: match self.thumbnail_source {
                Some(s) => Some(s@),
                None => None,
            },
        }
    }
}

/// The metadata of an image with the given file info, image info and thumbnails, of
/// which the first counts; `None` where there is nothing to tell.
pub open spec fn image_info_of(
    file_info: Option<FileContentInfo>,
    image: ImageContent,
    thumbnail: Seq<ThumbnailContent>,
) -> Option<ImageInfoView> {
    if file_info is None && image.height is None && image.width is None && thumbnail.len() == 0 {
        None
    } else {
        Some(
            ImageInfoView {
                height: image.height,
                width: image.width,
                mimetype: match file_info {
                    Some(f) => crate::content::option_view(f.mimetype),
                    None => None,
                },
                size: match file_info {
                    Some(f) => f.size,
                    None => None,
                },
                thumbnail_info: if thumbnail.len() == 0 {
                    None
                } else {
                    thumbnail_info_of(unbox(thumbnail[0].file.info), unbox(thumbnail[0].image))
                },
                thumbnail_source: if thumbnail.len() == 0 {
                    None
                } else {
                    Some(
                        media_source_from_content(
                            thumbnail[0].file.url@,
                            option_encrypted_view(thumbnail[0].file.encryption_info),
                        ),
                    )
                },
            },
        )
    }
}

impl ImageInfo {
    /// Creates an empty `ImageInfo`.
    pub fn new() -> (info: ImageInfo)
        ensures
            info@ == (ImageInfoView {
                height: None,
                width: None,
                mimetype: None,
                size: None,
                thumbnail_info: None,
                thumbnail_source: None,
            }),
    {
        ImageInfo {
            height: None,
            width: None,
            mimetype: None,
            size: None,
            thumbnail_info: None,
            thumbnail_source: None,
        }
    }

    /// Create an `ImageInfo` from the given file info, image info and thumbnail.
    pub fn from_extensible_content(
        file_info: Option<&FileContentInfo>,
        image: &ImageContent,
        thumbnail: &Vec<ThumbnailContent>,
    ) -> (r: Option<ImageInfo>)
        ensures
            match r {
                Some(info) => image_info_of(unref(file_info), *image, thumbnail@) == Some(info@),
                None => image_info_of(unref(file_info), *image, thumbnail@) is None,
            },
    {
        if file_info.is_none() && image.is_empty() && thumbnail.len() == 0 {
            None
        } else {
            let (mimetype, size) = match file_info {
                Some(info) => (copy_option_string(&info.mimetype), info.size),
                None => (None, None),
            };
            let (thumbnail_source, thumbnail_info) = if thumbnail.len() > 0 {
                let first = &thumbnail[0];
                let source = MediaSource::from_file_content(
                    first.file.url.as_str(),
                    &first.file.encryption_info,
                );
                let info = ThumbnailInfo::from_extensible_content(
                    match &first.file.info {
                        Some(info) => Some(&**info),
                        None => None,
                    },
                    match &first.image {
                        Some(image) => Some(&**image),
                        None => None,
                    },
                );
                (
                    Some(source),
                    match info {
                        Some(info) => Some(Box::new(info)),
                        None => None,
                    },
                )
            } else {
                (None, None)
            };
            Some(
                ImageInfo {
                    height: image.height,
                    width: image.width,
                    mimetype,
                    size,
                    thumbnail_source,
                    thumbnail_info,
                },
            )
        }
    }
}

} // verus!
