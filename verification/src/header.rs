//! Locating the `.text` section of an executable.
use goblin::Object;
use vstd::prelude::*;
use vstd::slice::slice_subrange;

verus! {

#[verifier::external_type_specification]
#[verifier::external_body]
pub struct ExGoblinError(goblin::error::Error);

/// The kind of object file a buffer holds.
#[derive(Debug, Clone, Copy, PartialEq, Eq, Structural)]
pub enum ObjectKind {
    /// An ELF file.
    Elf,
    /// A PE file.
    Pe,
    /// Another format.
    Other,
}

/// A section header of an ELF file.
pub struct ElfSection {
    /// The section's name, as bytes, where the name table holds one.
    pub name: Option<Vec<u8>>,
    /// The section's load address.
    pub addr: u64,
    /// The section's byte range in the file, where it occupies any.
    pub file_range: Option<(usize, usize)>,
}

impl View for ElfSection {
    type V = (Option<Seq<u8>>, u64, Option<(usize, usize)>);

    open spec fn view(&self) -> Self::V {
        (
            match &self.name {
                Some(n) => Some(n@),
                None => None,
            },
            self.addr,
            self.file_range,
        )
    }
}

/// A section table entry of a PE file.
pub struct PeSection {
    /// The section's name, as bytes, where it reads as one.
    pub name: Option<Vec<u8>>,
    /// The section's address relative to the image base.
    pub virtual_address: u32,
    /// The section's size in the file.
    pub size_of_raw_data: u32,
    /// The section's offset in the file.
    pub pointer_to_raw_data: u32,
}

impl View for PeSection {
    type V = (Option<Seq<u8>>, u32, u32, u32);

    open spec fn view(&self) -> Self::V {
        (
            match &self.name {
                Some(n) => Some(n@),
                None => None,
            },
            self.virtual_address,
            self.size_of_raw_data,
            self.pointer_to_raw_data,
        )
    }
}

/// Why the `.text` section could not be located.
#[derive(Debug)]
pub enum TextSectionError {
    /// The buffer does not parse as an object file.
    Parse(goblin::error::Error),
    /// No section is named `.text`.
    NotFound,
    /// The `.text` section occupies no bytes of the file.
    NoFileRange,
    /// The `.text` section's end offset overflows.
    SizeOverflow,
    /// The `.text` section's range runs past the end of the file.
    OutOfBounds,
    /// The object is neither ELF nor PE.
    Unsupported,
}

/// What `goblin::Object::parse` recognises `bytes` as, if it parses.
pub uninterp spec fn goblin_kind(bytes: Seq<u8>) -> Option<ObjectKind>;

/// The section headers goblin reads from the ELF file `bytes`.
pub uninterp spec fn goblin_elf_sections(bytes: Seq<u8>) -> Seq<
    (Option<Seq<u8>>, u64, Option<(usize, usize)>),
>;

/// The image base and section table goblin reads from the PE file `bytes`.
pub uninterp spec fn goblin_pe_layout(bytes: Seq<u8>) -> (u64, Seq<(Option<Seq<u8>>, u32, u32, u32)>);

/// Calls `goblin::Object::parse` and tells its variants apart.
#[verifier::external_body]
fn parse_object_kind(buffer: &[u8]) -> (res: Result<ObjectKind, goblin::error::Error>)
    ensures
        res is Err <==> goblin_kind(buffer@) is None,
        res matches Ok(k) ==> goblin_kind(buffer@) == Some(k),
{
    match Object::parse(buffer) {
        Ok(Object::Elf(_)) => Ok(ObjectKind::Elf),
        Ok(Object::PE(_)) => Ok(ObjectKind::Pe),
        Ok(_) => Ok(ObjectKind::Other),
        Err(e) => Err(e),
    }
}

/// Calls `goblin::Object::parse` on an ELF file and reads, for each section
/// header, its name from the section-name table (`Strtab::get_at`), its
/// `sh_addr` and its `file_range()`.
#[verifier::external_body]
fn elf_sections(buffer: &[u8]) -> (res: Vec<ElfSection>)
    requires
        goblin_kind(buffer@) == Some(ObjectKind::Elf),
    ensures
        res@.map_values(|s: ElfSection| s@) == goblin_elf_sections(buffer@),
{
    match Object::parse(buffer) {
        Ok(Object::Elf(elf)) => elf.section_headers.iter().map(|s| ElfSection {
            name: elf.shdr_strtab.get_at(s.sh_name).map(|n| n.as_bytes().to_vec()),
            addr: s.sh_addr,
            file_range: s.file_range().map(|r| (r.start, r.end)),
        }).collect(),
        _ => Vec::new(),
    }
}

/// Calls `goblin::Object::parse` on a PE file and reads its `image_base` and,
/// for each section, `name()`, `virtual_address`, `size_of_raw_data` and
/// `pointer_to_raw_data`.
#[verifier::external_body]
fn pe_layout(buffer: &[u8]) -> (res: (u64, Vec<PeSection>))
    requires
        goblin_kind(buffer@) == Some(ObjectKind::Pe),
    ensures
        (res.0, res.1@.map_values(|s: PeSection| s@)) == goblin_pe_layout(buffer@),
{
    match Object::parse(buffer) {
        Ok(Object::PE(pe)) => (pe.image_base, pe.sections.iter().map(|s| PeSection {
            name: s.name().ok().map(|n| n.as_bytes().to_vec()),
            virtual_address: s.virtual_address,
            size_of_raw_data: s.size_of_raw_data,
            pointer_to_raw_data: s.pointer_to_raw_data,
        }).collect()),
        _ => (0, Vec::new()),
    }
}

/// The bytes of the name `.text`.
pub open spec fn text_name() -> Seq<u8> {
    seq![0x2eu8, 0x74u8, 0x65u8, 0x78u8, 0x74u8]
}

/// Whether `name` is `.text`.
fn is_text_name(name: &Option<Vec<u8>>) -> (r: bool)
    ensures
        r == (match name {
            Some(n) => n@ == text_name(),
            None => false,
        }),
{
    match name {
        None => false,
        Some(n) => {
            if n.len() != 5 {
                return false;
            }
            let r = n[0] == 0x2e && n[1] == 0x74 && n[2] == 0x65 && n[3] == 0x78 && n[4] == 0x74;
            assert(r ==> n@ =~= text_name());
            r
        },
    }
}

/// The index of the first entry of `names` that is `.text`.
pub open spec fn first_text(names: Seq<Option<Seq<u8>>>) -> Option<int>
    decreases names.len(),
{
    if names.len() == 0 {
        None
    } else if names[0] == Some(text_name()) {
        Some(0)
    } else {
        match first_text(names.drop_first()) {
            Some(i) => Some(i + 1),
            None => None,
        }
    }
}

proof fn lemma_first_text(names: Seq<Option<Seq<u8>>>, k: int)
    requires
        0 <= k <= names.len(),
        forall|j: int| 0 <= j < k ==> names[j] != Some(text_name()),
    ensures
        first_text(names) == match first_text(names.skip(k)) {
            Some(i) => Some(i + k),
            None => None,
        },
    decreases k,
{
    if k > 0 {
        assert(names.skip(1) =~= names.drop_first());
        lemma_first_text(names.drop_first(), k - 1);
        assert(names.drop_first().skip(k - 1) =~= names.skip(k));
    } else {
        assert(names.skip(0) =~= names);
    }
}

/// What locating `.text` among the ELF section headers `sections` gives, for
/// a file of `len` bytes: its load address and byte range, or the error.
pub open spec fn elf_text(
    sections: Seq<(Option<Seq<u8>>, u64, Option<(usize, usize)>)>,
    len: nat,
) -> Result<(u64, int, int), TextSectionError> {
    match first_text(sections.map_values(|s: (Option<Seq<u8>>, u64, Option<(usize, usize)>)| s.0)) {
        None => Err(TextSectionError::NotFound),
        Some(i) => match sections[i].2 {
            None => Err(TextSectionError::NoFileRange),
            Some(r) => if r.0 <= r.1 <= len {
                Ok((sections[i].1, r.0 as int, r.1 as int))
            } else {
                Err(TextSectionError::OutOfBounds)
            },
        },
    }
}

/// What locating `.text` in the PE section table `sections` with image base
/// `image_base` gives, for a file of `len` bytes.
pub open spec fn pe_text(
    image_base: u64,
    sections: Seq<(Option<Seq<u8>>, u32, u32, u32)>,
    len: nat,
) -> Result<(u64, int, int), TextSectionError> {
    match first_text(sections.map_values(|s: (Option<Seq<u8>>, u32, u32, u32)| s.0)) {
        None => Err(TextSectionError::NotFound),
        Some(i) => {
            let start = sections[i].3 as int;
            let end = start + sections[i].2;
            if end > usize::MAX {
                Err(TextSectionError::SizeOverflow)
            } else if end <= len {
                Ok((image_base.wrapping_add(sections[i].1 as u64), start, end))
            } else {
                Err(TextSectionError::OutOfBounds)
            }
        },
    }
}

/// The located section `res` agrees with `expected`: the same load address
/// and the bytes of `buffer` in the expected range, or the same error.
pub open spec fn located_as(
    res: Result<(u64, &[u8]), TextSectionError>,
    buffer: Seq<u8>,
    expected: Result<(u64, int, int), TextSectionError>,
) -> bool {
    match (res, expected) {
        (Ok((addr, bytes)), Ok((a, lo, hi))) => addr == a && bytes@ == buffer.subrange(lo, hi),
        (Err(TextSectionError::NotFound), Err(TextSectionError::NotFound)) => true,
        (Err(TextSectionError::NoFileRange), Err(TextSectionError::NoFileRange)) => true,
        (Err(TextSectionError::SizeOverflow), Err(TextSectionError::SizeOverflow)) => true,
        (Err(TextSectionError::OutOfBounds), Err(TextSectionError::OutOfBounds)) => true,
        _ => false,
    }
}

/// Locates `.text` among the section headers of the ELF file `buffer`.
pub fn elf_text_section<'a>(buffer: &'a [u8], sections: &Vec<ElfSection>) -> (res: Result<
    (u64, &'a [u8]),
    TextSectionError,
>)
    ensures
        located_as(res, buffer@, elf_text(sections@.map_values(|s: ElfSection| s@), buffer@.len())),
{
    let ghost views = sections@.map_values(|s: ElfSection| s@);
    let ghost names = views.map_values(|s: (Option<Seq<u8>>, u64, Option<(usize, usize)>)| s.0);
    let mut k: usize = 0;
    while k < sections.len()
        invariant
            0 <= k <= sections@.len(),
            views == sections@.map_values(|s: ElfSection| s@),
            names == views.map_values(|s: (Option<Seq<u8>>, u64, Option<(usize, usize)>)| s.0),
            forall|j: int| 0 <= j < k ==> names[j] != Some(text_name()),
        decreases sections@.len() - k,
    {
        if is_text_name(&sections[k].name) {
            proof {
                lemma_first_text(names, k as int);
                assert(names.skip(k as int)[0] == Some(text_name()));
            }
            return match sections[k].file_range {
                None => Err(TextSectionError::NoFileRange),
                Some((start, end)) => {
                    if start <= end && end <= buffer.len() {
                        Ok((sections[k].addr, slice_subrange(buffer, start, end)))
                    } else {
                        Err(TextSectionError::OutOfBounds)
                    }
                },
            };
        }
        k = k + 1;
    }
    proof {
        lemma_first_text(names, k as int);
        assert(names.skip(k as int).len() == 0);
    }
    Err(TextSectionError::NotFound)
}

/// Locates `.text` in the section table of the PE file `buffer`, loaded at
/// `image_base`.
pub fn pe_text_section<'a>(buffer: &'a [u8], image_base: u64, sections: &Vec<PeSection>) -> (res:
    Result<(u64, &'a [u8]), TextSectionError>)
    ensures
        located_as(res, buffer@, pe_text(image_base, sections@.map_values(|s: PeSection| s@), buffer@.len())),
{
    let ghost views = sections@.map_values(|s: PeSection| s@);
    let ghost names = views.map_values(|s: (Option<Seq<u8>>, u32, u32, u32)| s.0);
    let mut k: usize = 0;
    while k < sections.len()
        invariant
            0 <= k <= sections@.len(),
            views == sections@.map_values(|s: PeSection| s@),
            names == views.map_values(|s: (Option<Seq<u8>>, u32, u32, u32)| s.0),
            forall|j: int| 0 <= j < k ==> names[j] != Some(text_name()),
        decreases sections@.len() - k,
    {
        if is_text_name(&sections[k].name) {
            proof {
                lemma_first_text(names, k as int);
                assert(names.skip(k as int)[0] == Some(text_name()));
            }
            let start = sections[k].pointer_to_raw_data as usize;
            let end = match start.checked_add(sections[k].size_of_raw_data as usize) {
                Some(e) => e,
                None => return Err(TextSectionError::SizeOverflow),
            };
            let load_address = image_base.wrapping_add(sections[k].virtual_address as u64);
            if end <= buffer.len() {
                return Ok((load_address, slice_subrange(buffer, start, end)));
            } else {
                return Err(TextSectionError::OutOfBounds);
            }
        }
        k = k + 1;
    }
    proof {
        lemma_first_text(names, k as int);
        assert(names.skip(k as int).len() == 0);
    }
    Err(TextSectionError::NotFound)
}

/// Locates the `.text` section of an ELF or PE executable and returns its
/// load address and bytes.
pub fn extract_text_section<'a>(buffer: &'a [u8]) -> (res: Result<(u64, &'a [u8]), TextSectionError>)
    ensures
        match goblin_kind(buffer@) {
            None => res matches Err(TextSectionError::Parse(_)),
            Some(ObjectKind::Elf) => located_as(res, buffer@, elf_text(goblin_elf_sections(buffer@), buffer@.len())),
            Some(ObjectKind::Pe) => located_as(
                res,
                buffer@,
                pe_text(goblin_pe_layout(buffer@).0, goblin_pe_layout(buffer@).1, buffer@.len()),
            ),
            Some(ObjectKind::Other) => res matches Err(TextSectionError::Unsupported),
        },
{
    match parse_object_kind(buffer) {
        Err(e) => Err(TextSectionError::Parse(e)),
        Ok(ObjectKind::Elf) => {
            let sections = elf_sections(buffer);
            elf_text_section(buffer, &sections)
        },
        Ok(ObjectKind::Pe) => {
            let (image_base, sections) = pe_layout(buffer);
            pe_text_section(buffer, image_base, &sections)
        },
        Ok(ObjectKind::Other) => Err(TextSectionError::Unsupported),
    }
}

} // verus!
