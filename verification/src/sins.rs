//! The decisions taken while flashing a `.sin` archive: which entries are
//! sent, which slots are written, and the commands that follow each chunk.

use vstd::prelude::*;
use vstd::string::StringSliceAdditionalSpecFns;

use crate::text::{
    bytes_contain, bytes_start_with, contains_bytes, occurs_at_index, push_all, replace_all,
    replace_bytes, str_eq,
};
use crate::types::{download_prefix, other_slot, spec_hex_len, ByteVec, FastbootHeader, Slot};
use crate::utils::noerase_mark;
use crate::text::trim_chars;

verus! {

/// The partitions that are written in both slots.
pub open spec fn spec_flash_both_slots(flash_prefix: Seq<char>) -> bool {
    flash_prefix == "bluetooth"@ || flash_prefix == "dsp"@ || flash_prefix == "modem"@
        || flash_prefix == "rdimage"@
}

/// The partition is written in both slots: `bluetooth`, `dsp`, `modem` or
/// `rdimage`.
pub fn flash_both_slots(flash_prefix: &str) -> (r: bool)
    ensures
        r == spec_flash_both_slots(flash_prefix@),
{
    str_eq(flash_prefix, "bluetooth") || str_eq(flash_prefix, "dsp") || str_eq(
        flash_prefix,
        "modem",
    ) || str_eq(flash_prefix, "rdimage")
}

/// The slots a `.sin` archive is written to, in order: the target slot,
/// then, for a partition written in both slots, the other.
pub open spec fn spec_sin_slots(flash_prefix: Seq<char>, target: Slot) -> Seq<Slot> {
    if spec_flash_both_slots(flash_prefix) {
        seq![target, other_slot(target)]
    } else {
        seq![target]
    }
}

/// The slots a `.sin` archive is written to, in order.
pub fn sin_slots(flash_prefix: &str, target: Slot) -> (r: Vec<Slot>)
    ensures
        r@ == spec_sin_slots(flash_prefix@, target),
{
    let mut v: Vec<Slot> = Vec::new();
    v.push(target);
    if flash_both_slots(flash_prefix) {
        v.push(target.other());
    }
    v
}

/// `_other`, the mark of an entry meant for the other slot.
pub open spec fn other_mark() -> Seq<u8> {
    seq![95u8, 111u8, 116u8, 104u8, 101u8, 114u8]
}

/// The byte of a slot's name.
pub open spec fn slot_byte(slot: Slot) -> u8 {
    match slot {
        Slot::A => 97u8,
        Slot::B => 98u8,
    }
}

/// `_` and the slot's name, or nothing.
pub open spec fn slot_suffix(slot: Option<Slot>) -> Seq<u8> {
    match slot {
        Some(s) => seq![95u8, slot_byte(s)],
        None => Seq::empty(),
    }
}

/// The slot an entry is written to: none where the partition has no
/// slots, else the other slot for an entry whose name holds `_other`, else
/// the target.
pub open spec fn spec_flash_slot(has_slot: bool, entry_name: Seq<u8>, target: Slot) -> Option<
    Slot,
> {
    if has_slot {
        Some(
            if bytes_contain(entry_name, other_mark()) {
                other_slot(target)
            } else {
                target
            },
        )
    } else {
        None
    }
}

/// The slot an entry is written to.
pub fn flash_slot(has_slot: bool, entry_name: &str, target: Slot) -> (r: Option<Slot>)
    ensures
        r == spec_flash_slot(has_slot, entry_name.spec_bytes(), target),
{
    if !has_slot {
        return None;
    }
    let mark: Vec<u8> = vec![95u8, 111u8, 116u8, 104u8, 101u8, 114u8];
    if contains_bytes(entry_name.as_bytes(), mark.as_slice()) {
        Some(target.other())
    } else {
        Some(target)
    }
}

fn slot_suffix_bytes(v: &mut Vec<u8>, slot: Option<Slot>)
    ensures
        final(v)@ == old(v)@ + slot_suffix(slot),
{
    match slot {
        Some(Slot::A) => {
            v.push(95u8);
            v.push(97u8);
        },
        Some(Slot::B) => {
            v.push(95u8);
            v.push(98u8);
        },
        None => {},
    }
}

/// `erase:`.
pub open spec fn erase_word() -> Seq<u8> {
    seq![101u8, 114u8, 97u8, 115u8, 101u8, 58u8]
}

/// The command that erases the partition before its first chunk:
/// `erase:` and the partition, with the entry's slot when it has slots.
pub open spec fn spec_erase_command(
    flash_prefix: Seq<u8>,
    has_slot: bool,
    entry_name: Seq<u8>,
    target: Slot,
) -> Seq<u8> {
    erase_word() + flash_prefix + slot_suffix(spec_flash_slot(has_slot, entry_name, target))
}

/// The command that erases the partition before its first chunk.
pub fn erase_command(flash_prefix: &str, has_slot: bool, entry_name: &str, target: Slot) -> (r: Vec<u8>)
    ensures
        r@ == spec_erase_command(flash_prefix.spec_bytes(), has_slot, entry_name.spec_bytes(), target),
{
    let mut v: Vec<u8> = vec![101u8, 114u8, 97u8, 115u8, 101u8, 58u8];
    push_all(&mut v, flash_prefix.as_bytes());
    let slot = flash_slot(has_slot, entry_name, target);
    slot_suffix_bytes(&mut v, slot);
    v
}

/// The command that writes a chunk: the end command, `:`, the partition,
/// and `_` with the slot when one is given.
pub open spec fn spec_flash_command(end_cmd: Seq<u8>, flash_prefix: Seq<u8>, target: Option<Slot>) -> Seq<u8> {
    end_cmd + seq![58u8] + flash_prefix + slot_suffix(target)
}

/// The command that writes a chunk.
pub fn flash_command(fb_end_cmd: &str, flash_prefix: &str, target: Option<Slot>) -> (r: Vec<u8>)
    ensures
        r@ == spec_flash_command(fb_end_cmd.spec_bytes(), flash_prefix.spec_bytes(), target),
{
    let mut v: Vec<u8> = Vec::new();
    push_all(&mut v, fb_end_cmd.as_bytes());
    v.push(58u8);
    push_all(&mut v, flash_prefix.as_bytes());
    slot_suffix_bytes(&mut v, target);
    v
}

/// `partitionimage_`, how a partition image is named inside its archive.
pub open spec fn partition_image_word() -> Seq<u8> {
    seq![112u8, 97u8, 114u8, 116u8, 105u8, 116u8, 105u8, 111u8, 110u8, 105u8, 109u8, 97u8, 103u8, 101u8, 95u8]
}

/// `Repartition:`, the command that writes a partition table.
pub open spec fn repartition_word() -> Seq<u8> {
    seq![82u8, 101u8, 112u8, 97u8, 114u8, 116u8, 105u8, 116u8, 105u8, 111u8, 110u8, 58u8]
}

/// The command that follows an uploaded chunk: for `Repartition` of a
/// partition image, its name with each `partitionimage_` made
/// `Repartition:`; else the flash command for the entry's slot.
pub open spec fn spec_write_command(
    end_cmd: Seq<char>,
    flash_prefix: Seq<u8>,
    has_slot: bool,
    entry_name: Seq<u8>,
    target: Slot,
) -> Seq<u8> {
    if end_cmd == "Repartition"@ && bytes_start_with(flash_prefix, partition_image_word()) {
        replace_all(flash_prefix, partition_image_word(), repartition_word())
    } else {
        spec_flash_command(encode_end_cmd(end_cmd), flash_prefix, spec_flash_slot(has_slot, entry_name, target))
    }
}

/// The bytes of an end command.
pub open spec fn encode_end_cmd(end_cmd: Seq<char>) -> Seq<u8> {
    vstd::utf8::encode_utf8(end_cmd)
}

/// The commands sent after a chunk (all chunks but the signature): the
/// erase command before the first chunk of a `flash`, then the write
/// command.
pub open spec fn spec_chunk_commands(
    index: nat,
    end_cmd: Seq<char>,
    flash_prefix: Seq<u8>,
    has_slot: bool,
    entry_name: Seq<u8>,
    target: Slot,
) -> Seq<Seq<u8>> {
    let write = spec_write_command(end_cmd, flash_prefix, has_slot, entry_name, target);
    if index == 1 && end_cmd == "flash"@ {
        seq![spec_erase_command(flash_prefix, has_slot, entry_name, target), write]
    } else {
        seq![write]
    }
}

/// The commands to send after uploading chunk `index` of a `.sin`
/// archive, as `spec_chunk_commands` states.
pub fn chunk_commands(
    index: usize,
    fb_end_cmd: &str,
    flash_prefix: &str,
    has_slot: bool,
    entry_name: &str,
    target: Slot,
) -> (r: Vec<Vec<u8>>)
    ensures
        r@.map_values(|c: Vec<u8>| c@) == spec_chunk_commands(
            index as nat,
            fb_end_cmd@,
            flash_prefix.spec_bytes(),
            has_slot,
            entry_name.spec_bytes(),
            target,
        ),
{
    let mut out: Vec<Vec<u8>> = Vec::new();
    if index == 1 && str_eq(fb_end_cmd, "flash") {
        out.push(erase_command(flash_prefix, has_slot, entry_name, target));
    }
    let image_word: Vec<u8> = vec![112u8, 97u8, 114u8, 116u8, 105u8, 116u8, 105u8, 111u8, 110u8, 105u8, 109u8, 97u8, 103u8, 101u8, 95u8];
    let write = if str_eq(fb_end_cmd, "Repartition") && occurs_at_index(
        flash_prefix.as_bytes(),
        image_word.as_slice(),
        0,
    ) {
        let repartition: Vec<u8> = vec![82u8, 101u8, 112u8, 97u8, 114u8, 116u8, 105u8, 116u8, 105u8, 111u8, 110u8, 58u8];
        replace_bytes(flash_prefix.as_bytes(), image_word.as_slice(), repartition.as_slice())
    } else {
        let slot = flash_slot(has_slot, entry_name, target);
        flash_command(fb_end_cmd, flash_prefix, slot)
    };
    let ghost before = out@;
    out.push(write);
    assert(out@.map_values(|c: Vec<u8>| c@) =~= before.map_values(|c: Vec<u8>| c@).push(write@));
    out
}

/// `getvar:has-slot:`.
pub open spec fn has_slot_word() -> Seq<u8> {
    seq![103u8, 101u8, 116u8, 118u8, 97u8, 114u8, 58u8, 104u8, 97u8, 115u8, 45u8, 115u8, 108u8, 111u8, 116u8, 58u8]
}

/// The query whether a partition has slots: `getvar:has-slot:` and the
/// partition.
pub fn has_slot_query(flash_prefix: &str) -> (r: Vec<u8>)
    ensures
        r@ == has_slot_word() + flash_prefix.spec_bytes(),
{
    let mut v: Vec<u8> = vec![103u8, 101u8, 116u8, 118u8, 97u8, 114u8, 58u8, 104u8, 97u8, 115u8, 45u8, 115u8, 108u8, 111u8, 116u8, 58u8];
    push_all(&mut v, flash_prefix.as_bytes());
    v
}

/// The answer to the slot query: the partition has slots when the command
/// succeeded and its reply is `yes`.
pub fn has_slot_answer(command_ok: bool, reply: &ByteVec) -> (r: bool)
    ensures
        r == (command_ok && reply@ == seq![121u8, 101u8, 115u8]),
{
    let yes: Vec<u8> = vec![121u8, 101u8, 115u8];
    command_ok && reply.eq_bytes(yes.as_slice())
}

/// `signature:`.
pub open spec fn signature_word() -> Seq<u8> {
    seq![115u8, 105u8, 103u8, 110u8, 97u8, 116u8, 117u8, 114u8, 101u8, 58u8]
}

/// The command that announces a signature of `len` bytes: `signature:`
/// and the eight hexadecimal digits of `len`.
pub fn signature_command(len: usize) -> (r: Vec<u8>)
    ensures
        r@ == signature_word() + spec_hex_len(len as nat),
{
    let mut v: Vec<u8> = vec![115u8, 105u8, 103u8, 110u8, 97u8, 116u8, 117u8, 114u8, 101u8, 58u8];
    let hex = ByteVec::from_len(len);
    push_all(&mut v, hex.as_slice());
    v
}

/// The kind of a tar entry, as far as flashing cares.
#[derive(Clone, Copy, Debug, PartialEq, Eq, Structural)]
pub enum TarEntryKind {
    Regular,
    Continuous,
    Other,
}

/// An archive entry is sent when it holds bytes and is a regular or
/// contiguous file.
pub fn filter_entry(size: u64, kind: TarEntryKind) -> (r: bool)
    ensures
        r == (size != 0 && (kind == TarEntryKind::Regular || kind == TarEntryKind::Continuous)),
{
    if size == 0 {
        return false;
    }
    match kind {
        TarEntryKind::Regular | TarEntryKind::Continuous => true,
        TarEntryKind::Other => false,
    }
}

/// An archive whose first two bytes are `1F 8B` is gzip-compressed.
pub fn is_gzip_magic(magic: &[u8]) -> (r: bool)
    ensures
        r == (magic@ == seq![0x1Fu8, 0x8Bu8]),
{
    if magic.len() != 2 {
        return false;
    }
    let r = magic[0] == 0x1F && magic[1] == 0x8B;
    assert(r ==> magic@ =~= seq![0x1Fu8, 0x8Bu8]);
    r
}

/// Why the entries of a `.sin` archive were refused.
#[derive(Clone, Copy, Debug, PartialEq, Eq, Structural)]
pub enum SinError {
    /// The archive has no entry, or its first entry has no name.
    EmptyEntryName,
    /// A later entry has no name.
    MismatchedEntryName,
}

/// The model of a list of entry names, each perhaps missing.
pub open spec fn names_view(names: Seq<Option<String>>) -> Seq<Option<Seq<char>>> {
    names.map_values(|o: Option<String>| match o {
        Some(s) => Some(s@),
        None => None,
    })
}

/// The partition an archive writes: the name of its first entry, when
/// every entry has a name.
pub open spec fn spec_validate_prefix(names: Seq<Option<Seq<char>>>) -> Result<Seq<char>, SinError> {
    if names.len() == 0 || names[0] is None {
        Err(SinError::EmptyEntryName)
    } else if exists|i: int| 1 <= i < names.len() && names[i] is None {
        Err(SinError::MismatchedEntryName)
    } else {
        Ok(names[0]->0)
    }
}

/// The partition an archive writes, from the names of its entries (each
/// the entry's path without its extension, or missing).
pub fn validate_prefix(names: &Vec<Option<String>>) -> (r: Result<String, SinError>)
    ensures
        match spec_validate_prefix(names_view(names@)) {
            Ok(p) => r matches Ok(s) && s@ == p,
            Err(e) => r == Err::<String, SinError>(e),
        },
{
    let ghost nv = names_view(names@);
    if names.len() == 0 {
        return Err(SinError::EmptyEntryName);
    }
    let first = match &names[0] {
        Some(s) => s.clone(),
        None => {
            return Err(SinError::EmptyEntryName);
        },
    };
    assert(nv[0] is Some);
    let mut i: usize = 1;
    while i < names.len()
        invariant
            1 <= i <= names.len(),
            nv == names_view(names@),
            nv.len() == names@.len(),
            nv[0] is Some,
            forall|j: int| 1 <= j < i ==> nv[j] is Some,
        decreases names.len() - i,
    {
        if names[i].is_none() {
            assert(nv[i as int] is None);
            assert(1 <= i < nv.len());
            return Err(SinError::MismatchedEntryName);
        }
        i = i + 1;
    }
    Ok(first)
}

/// What is done with an entry of a `.sin` archive: the first is the
/// signature, every later one a chunk of the image.
#[derive(Clone, Copy, Debug, PartialEq, Eq, Structural)]
pub enum SinEntryAction {
    Signature,
    Chunk,
}

/// What is done with the entry at `index` among the entries sent.
pub fn entry_action(index: usize) -> (r: SinEntryAction)
    ensures
        r == (if index == 0 {
            SinEntryAction::Signature
        } else {
            SinEntryAction::Chunk
        }),
{
    if index == 0 {
        SinEntryAction::Signature
    } else {
        SinEntryAction::Chunk
    }
}

/// Whether the device is asked if the partition has slots: only when
/// flashing.
pub fn wants_slot_query(fb_end_cmd: &str) -> (r: bool)
    ensures
        r == (fb_end_cmd@ == "flash"@),
{
    str_eq(fb_end_cmd, "flash")
}

/// Some line of `update.xml` marks `search_for` as not to be erased.
pub fn noerase_marked(lines: &Vec<String>, search_for: &str) -> (r: bool)
    ensures
        r == exists|i: int|
            0 <= i < lines@.len() && lines@[i]@.len() > 0 && #[trigger] trim_chars(lines@[i]@)
                == noerase_mark(search_for@),
{
    let mut i: usize = 0;
    while i < lines.len()
        invariant
            i <= lines@.len(),
            forall|k: int|
                0 <= k < i ==> !(lines@[k]@.len() > 0 && #[trigger] trim_chars(lines@[k]@)
                    == noerase_mark(search_for@)),
        decreases lines.len() - i,
    {
        if crate::utils::is_noerase_line(lines[i].as_str(), search_for) {
            return true;
        }
        i = i + 1;
    }
    false
}

/// The device echoed the announced length of a transfer of `len` bytes.
pub fn length_echoed(len: usize, reply: &ByteVec) -> (r: bool)
    ensures
        r == (reply@ == spec_hex_len(len as nat)),
{
    let hex = ByteVec::from_len(len);
    reply.eq_bytes(hex.as_slice())
}

/// The command that follows the answer to a signature announcement: a
/// device that refuses it (newer devices) is sent the signature as a
/// download of the same length; otherwise nothing more is sent.
pub fn cms_after_signature(header: FastbootHeader, len: usize) -> (r: Option<Vec<u8>>)
    ensures
        header == FastbootHeader::Fail ==> (r matches Some(c) && c@ == download_prefix()
            + spec_hex_len(len as nat)),
        header != FastbootHeader::Fail ==> r is None,
{
    if header == FastbootHeader::Fail {
        Some(crate::types::download_command(len))
    } else {
        None
    }
}

/// A device that refused the signature announcement is sent a final
/// `signature` command once the signature is written.
pub fn needs_final_signature(header: FastbootHeader) -> (r: bool)
    ensures
        r == (header == FastbootHeader::Fail),
{
    header == FastbootHeader::Fail
}

/// The bytes before the first NUL of a fixed-size name field, as
/// `CStr::from_bytes_until_nul` reads them; `None` when the field holds no
/// NUL.
pub fn name_until_nul(field: &[u8]) -> (r: Option<Vec<u8>>)
    ensures
        match r {
            Some(name) => exists|n: int|
                0 <= n < field@.len() && field@[n] == 0u8 && name@ == field@.take(n) && forall|
                    k: int,
                | 0 <= k < n ==> field@[k] != 0u8,
            None => forall|k: int| 0 <= k < field@.len() ==> field@[k] != 0u8,
        },
{
    let mut i: usize = 0;
    while i < field.len()
        invariant
            i <= field@.len(),
            forall|k: int| 0 <= k < i ==> field@[k] != 0u8,
        decreases field.len() - i,
    {
        if field[i] == 0u8 {
            let name = crate::types::ByteVec::from_slice(vstd::slice::slice_subrange(field, 0, i));
            return Some(name.into_vec());
        }
        i = i + 1;
    }
    None
}

/// The last index in `[lo, hi)` where `p` holds `c`; -1 where there is
/// none.
pub open spec fn last_index_of(p: Seq<u8>, c: u8, lo: int, hi: int) -> int
    decreases hi - lo,
{
    if hi <= lo {
        -1
    } else if p[hi - 1] == c {
        hi - 1
    } else {
        last_index_of(p, c, lo, hi - 1)
    }
}

/// Where the file name of the path `p[0..j]` lies, as a Unix `Path` finds
/// its last component: trailing `/` and `.` components are passed over;
/// there is no file name where the last component is `..`, a leading `.`,
/// or the root.
pub open spec fn file_name_range(p: Seq<u8>, j: int) -> Option<(int, int)>
    decreases j,
{
    if j <= 0 || j > p.len() {
        None
    } else if p[j - 1] == 47u8 {
        file_name_range(p, j - 1)
    } else {
        let s = last_index_of(p, 47u8, 0, j) + 1;
        let comp = p.subrange(s, j);
        if comp == seq![46u8] {
            if s == 0 {
                None
            } else {
                proof {
                    lemma_last_index_bounds(p, 47u8, 0, j);
                }
                file_name_range(p, s)
            }
        } else if comp == seq![46u8, 46u8] {
            None
        } else {
            Some((s, j))
        }
    }
}

/// The path `p` without the extension of its file name, as
/// `Path::with_extension("")` leaves it: cut right after the file stem (the
/// name up to its last `.`, or the whole name when it has no `.` other than
/// a leading one); unchanged when it has no file name.
pub open spec fn path_without_extension(p: Seq<u8>) -> Seq<u8> {
    match file_name_range(p, p.len() as int) {
        None => p,
        Some((s, j)) => {
            let d = last_index_of(p, 46u8, s, j);
            let end = if d == -1 || d == s {
                j
            } else {
                d
            };
            p.take(end)
        },
    }
}

/// The last index of a byte, when there is one, lies in the range and holds
/// the byte.
pub proof fn lemma_last_index_bounds(p: Seq<u8>, c: u8, lo: int, hi: int)
    requires
        0 <= lo,
        hi <= p.len(),
    ensures
        last_index_of(p, c, lo, hi) == -1 || (lo <= last_index_of(p, c, lo, hi) < hi
            && p[last_index_of(p, c, lo, hi)] == c),
    decreases hi - lo,
{
    if hi > lo && p[hi - 1] != c {
        lemma_last_index_bounds(p, c, lo, hi - 1);
    }
}

fn last_index(p: &[u8], c: u8, lo: usize, hi: usize) -> (r: Option<usize>)
    requires
        lo <= hi <= p@.len(),
    ensures
        match r {
            Some(k) => lo <= k < hi && last_index_of(p@, c, lo as int, hi as int) == k as int,
            None => last_index_of(p@, c, lo as int, hi as int) == -1,
        },
{
    let mut k = hi;
    while k > lo
        invariant
            lo <= k <= hi <= p@.len(),
            last_index_of(p@, c, lo as int, hi as int) == last_index_of(p@, c, lo as int, k as int),
        decreases k,
    {
        if p[k - 1] == c {
            return Some(k - 1);
        }
        k = k - 1;
    }
    None
}

/// The name of an archive entry without its extension, on the bytes of the
/// name, as `Path::with_extension("")` leaves a Unix path.
pub fn path_stem(p: &[u8]) -> (r: Vec<u8>)
    ensures
        r@ == path_without_extension(p@),
{
    let mut j: usize = p.len();
    let mut range: Option<(usize, usize)> = None;
    while j > 0
        invariant_except_break
            range is None,
        invariant
            j <= p@.len(),
            file_name_range(p@, p@.len() as int) == file_name_range(p@, j as int),
        ensures
            match range {
                None => file_name_range(p@, p@.len() as int) is None,
                Some((s, e)) => file_name_range(p@, p@.len() as int) == Some((s as int, e as int))
                    && s <= e <= p@.len(),
            },
        decreases j,
    {
        if p[j - 1] == 47u8 {
            j = j - 1;
        } else {
            let s: usize = match last_index(p, 47u8, 0, j) {
                Some(k) => k + 1,
                None => 0,
            };
            proof {
                lemma_last_index_bounds(p@, 47u8, 0, j as int);
            }
            let single_dot = j - s == 1 && p[s] == 46u8;
            let double_dot = j - s == 2 && p[s] == 46u8 && p[s + 1] == 46u8;
            proof {
                let comp = p@.subrange(s as int, j as int);
                if single_dot {
                    assert(comp =~= seq![46u8]);
                } else {
                    assert(comp != seq![46u8]) by {
                        if comp.len() == 1 {
                            assert(comp[0] == p@[s as int]);
                        }
                    }
                }
                if double_dot {
                    assert(comp =~= seq![46u8, 46u8]);
                } else {
                    assert(comp != seq![46u8, 46u8]) by {
                        if comp.len() == 2 {
                            assert(comp[0] == p@[s as int]);
                            assert(comp[1] == p@[s + 1]);
                        }
                    }
                }
            }
            if single_dot {
                if s == 0 {
                    break;
                }
                j = s;
            } else if double_dot {
                break;
            } else {
                range = Some((s, j));
                break;
            }
        }
    }
    match range {
        None => vstd::slice::slice_to_vec(p),
        Some((s, j)) => {
            let end = match last_index(p, 46u8, s, j) {
                Some(d) => if d == s {
                    j
                } else {
                    d
                },
                None => j,
            };
            proof {
                lemma_last_index_bounds(p@, 46u8, s as int, j as int);
            }
            vstd::slice::slice_to_vec(vstd::slice::slice_subrange(p, 0, end))
        },
    }
}

/// An entry whose name holds `_other` anywhere is written to the other
/// slot of a partition with slots, and erased there before its first chunk;
/// any other entry goes to the target slot.
pub proof fn lemma_other_mark_chooses_slot(entry_name: Seq<u8>, target: Slot, prefix: Seq<u8>)
    ensures
        (exists|i: int|
            0 <= i && i + 6 <= entry_name.len() && #[trigger] entry_name.skip(i).take(6) == seq![
                95u8,
                111u8,
                116u8,
                104u8,
                101u8,
                114u8,
            ]) ==> spec_flash_slot(true, entry_name, target) == Some(
            match target {
                Slot::A => Slot::B,
                Slot::B => Slot::A,
            },
        ) && spec_erase_command(prefix, true, entry_name, target) == seq![
            101u8,
            114u8,
            97u8,
            115u8,
            101u8,
            58u8,
        ] + prefix + seq![
            95u8,
            match target {
                Slot::A => 98u8,
                Slot::B => 97u8,
            },
        ],
        !(exists|i: int|
            0 <= i && i + 6 <= entry_name.len() && #[trigger] entry_name.skip(i).take(6) == seq![
                95u8,
                111u8,
                116u8,
                104u8,
                101u8,
                114u8,
            ]) ==> spec_flash_slot(true, entry_name, target) == Some(target) && spec_erase_command(
            prefix,
            true,
            entry_name,
            target,
        ) == seq![101u8, 114u8, 97u8, 115u8, 101u8, 58u8] + prefix + seq![
            95u8,
            match target {
                Slot::A => 97u8,
                Slot::B => 98u8,
            },
        ],
        spec_flash_slot(false, entry_name, target) is None,
{
    if exists|i: int|
        0 <= i && i + 6 <= entry_name.len() && #[trigger] entry_name.skip(i).take(6) == seq![
            95u8,
            111u8,
            116u8,
            104u8,
            101u8,
            114u8,
        ] {
        let i = choose|i: int|
            0 <= i && i + 6 <= entry_name.len() && #[trigger] entry_name.skip(i).take(6) == seq![
                95u8,
                111u8,
                116u8,
                104u8,
                101u8,
                114u8,
            ];
        assert(entry_name.subrange(i, i + 6) =~= entry_name.skip(i).take(6));
        assert(crate::text::occurs_at(entry_name, other_mark(), i));
    } else {
        assert forall|i: int| !crate::text::occurs_at(entry_name, other_mark(), i) by {
            if 0 <= i && i + 6 <= entry_name.len() {
                assert(entry_name.subrange(i, i + 6) =~= entry_name.skip(i).take(6));
            }
        }
    }
}

/// Before the first chunk of a `flash` to a partition with slots, the
/// partition is erased and then flashed, both in the same slot: the other
/// slot for an entry whose name holds `_other` anywhere, else the target.
/// Every later chunk is flashed there without an erase.
pub proof fn lemma_first_flash_chunk_commands(
    index: nat,
    entry_name: Seq<u8>,
    target: Slot,
    prefix: Seq<u8>,
)
    requires
        index >= 1,
    ensures
        ({
            let b = if exists|i: int|
                0 <= i && i + 6 <= entry_name.len() && #[trigger] entry_name.skip(i).take(6)
                    == seq![95u8, 111u8, 116u8, 104u8, 101u8, 114u8] {
                match target {
                    Slot::A => 98u8,
                    Slot::B => 97u8,
                }
            } else {
                match target {
                    Slot::A => 97u8,
                    Slot::B => 98u8,
                }
            };
            let flash = seq![102u8, 108u8, 97u8, 115u8, 104u8, 58u8] + prefix + seq![95u8, b];
            let erase = seq![101u8, 114u8, 97u8, 115u8, 101u8, 58u8] + prefix + seq![95u8, b];
            spec_chunk_commands(index, "flash"@, prefix, true, entry_name, target) == if index
                == 1 {
                seq![erase, flash]
            } else {
                seq![flash]
            }
        }),
{
    lemma_other_mark_chooses_slot(entry_name, target, prefix);
    reveal_strlit("flash");
    let w = "flash"@;
    assert(vstd::utf8::is_ascii_chars(w));
    vstd::utf8::is_ascii_chars_encode_utf8(w);
    assert(encode_end_cmd(w) =~= seq![102u8, 108u8, 97u8, 115u8, 104u8]);
    reveal_strlit("Repartition");
    assert(w != "Repartition"@);
    let s = spec_flash_slot(true, entry_name, target);
    assert(s is Some);
    assert(slot_suffix(s) == seq![95u8, slot_byte(s->0)]);
    assert(spec_flash_command(encode_end_cmd(w), prefix, s) =~= seq![
        102u8,
        108u8,
        97u8,
        115u8,
        104u8,
        58u8,
    ] + prefix + seq![95u8, slot_byte(s->0)]);
}

/// Exactly the partitions `bluetooth`, `dsp`, `modem` and `rdimage` are
/// written to both slots, the target first; every other partition to the
/// target slot only.
pub proof fn lemma_both_slots_partitions(p: Seq<char>, target: Slot)
    ensures
        set!["bluetooth"@, "dsp"@, "modem"@, "rdimage"@].contains(p) ==> spec_sin_slots(p, target)
            == seq![
            target,
            match target {
                Slot::A => Slot::B,
                Slot::B => Slot::A,
            },
        ],
        !set!["bluetooth"@, "dsp"@, "modem"@, "rdimage"@].contains(p) ==> spec_sin_slots(
            p,
            target,
        ) == seq![target],
{
}

} // verus!
