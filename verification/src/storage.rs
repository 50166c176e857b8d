use vstd::prelude::*;
use crate::settings::Settings;

verus! {

/// What every storage of an estimator offers: its byte image, and a fresh start.
pub trait Storage: Sized {
    /// The storage is consistent with its settings.
    spec fn storage_wf(&self) -> bool;

    /// The image can be written: its parts fit the machine's numbers.
    spec fn writable(&self) -> bool;

    /// The number of bytes of the image.
    spec fn image_len(&self) -> nat;

    /// `after` is `before` with the image written over its beginning.
    spec fn writes(&self, before: Seq<u8>, after: Seq<u8>) -> bool;

    /// The images that can be read back under `settings`.
    spec fn readable(settings: Settings, bytes: Seq<u8>) -> bool;

    /// `storage` is what `bytes` holds, read under `settings`.
    spec fn reads(settings: Settings, bytes: Seq<u8>, storage: Self) -> bool;

    /// `after` is this storage with nothing counted.
    spec fn cleared(&self, after: Self) -> bool;

    /// The number of bytes of the image.
    fn bytes_size(&self) -> (size: usize)
        requires
            self.storage_wf(),
            self.writable(),
        ensures
            size == self.image_len(),
    ;

    /// Writes the image over the beginning of `buf`.
    fn to_bytes(&self, buf: &mut [u8])
        requires
            self.storage_wf(),
            self.writable(),
            old(buf).len() >= self.image_len(),
        ensures
            self.writes(old(buf)@, final(buf)@),
    ;

    /// The storage that an image holds.
    fn from_bytes(settings: &Settings, buf: &[u8]) -> (storage: Self)
        requires
            settings.wf(),
            Self::readable(*settings, buf@),
        ensures
            storage.storage_wf(),
            Self::reads(*settings, buf@, storage),
    ;

    /// Forgets what was counted; the settings stay.
    fn clear(&mut self)
        requires
            old(self).storage_wf(),
        ensures
            final(self).storage_wf(),
            old(self).cleared(*final(self)),
    ;
}

} // verus!
