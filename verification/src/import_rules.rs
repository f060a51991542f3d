//! The rules a dataset import applies before it reads anything: which
//! format each source has, which combinations of sources and mapping it
//! accepts, and how the bundles it writes are named.

use vstd::prelude::*;

use crate::text::{chars_of, is_lit, lower_seq, string_from_chars, to_ascii_lowercase};

verus! {

/// The kind of a dataset source.
#[derive(Debug, Clone, Copy, PartialEq, Eq, Structural)]
pub enum SourceFormat {
    OsmPbf,
    GeoPackage,
    OvertureParquet,
}

/// Why an import was refused before reading its sources.
#[derive(Debug, Clone, Copy, PartialEq, Eq, Structural)]
pub enum ImportError {
    /// No source was given.
    NoSources,
    /// Several sources of a format other than GeoPackage.
    MultiSourceNotGeoPackage,
    /// A source whose format is not the selected one.
    MixedFormats,
    /// A GeoPackage import without a mapping.
    MappingRequired,
    /// A mapping for a source that is not a GeoPackage.
    MappingOnlyForGeoPackage,
}

/// The format of a source: a directory holds Overture parquet files; by
/// extension, ignoring ASCII case, `parquet` and `geoparquet` are
/// Overture, `gpkg` is GeoPackage, anything else (or none) is OSM PBF.
pub open spec fn format_of(is_dir: bool, extension: Option<Seq<char>>) -> SourceFormat {
    if is_dir {
        SourceFormat::OvertureParquet
    } else {
        match extension {
            Some(e) => if lower_seq(e) == "parquet"@ || lower_seq(e) == "geoparquet"@ {
                SourceFormat::OvertureParquet
            } else if lower_seq(e) == "gpkg"@ {
                SourceFormat::GeoPackage
            } else {
                SourceFormat::OsmPbf
            },
            None => SourceFormat::OsmPbf,
        }
    }
}

/// The format of a source from whether it is a directory and from its
/// extension, as `format_of` says.
pub fn detect_source_format(is_dir: bool, extension: Option<&str>) -> (r: SourceFormat)
    ensures
        r == format_of(
            is_dir,
            match extension {
                Some(e) => Some(e@),
                None => None,
            },
        ),
{
    if is_dir {
        return SourceFormat::OvertureParquet;
    }
    match extension {
        Some(e) => {
            let lower = to_ascii_lowercase(&chars_of(e));
            if is_lit(&lower, "parquet") || is_lit(&lower, "geoparquet") {
                SourceFormat::OvertureParquet
            } else if is_lit(&lower, "gpkg") {
                SourceFormat::GeoPackage
            } else {
                SourceFormat::OsmPbf
            }
        },
        None => SourceFormat::OsmPbf,
    }
}

/// The first refusal an import meets, in the order it checks: no source;
/// several sources that are not GeoPackages; a source of another format;
/// then a GeoPackage without a mapping or a mapping without a GeoPackage.
pub open spec fn import_refusal(selected: SourceFormat, detected: Seq<SourceFormat>, has_mapping: bool) -> Option<
    ImportError,
> {
    if detected.len() == 0 {
        Some(ImportError::NoSources)
    } else if selected != SourceFormat::GeoPackage && detected.len() != 1 {
        Some(ImportError::MultiSourceNotGeoPackage)
    } else if exists|i: int| 0 <= i < detected.len() && detected[i] != selected {
        Some(ImportError::MixedFormats)
    } else if selected == SourceFormat::GeoPackage && !has_mapping {
        Some(ImportError::MappingRequired)
    } else if selected != SourceFormat::GeoPackage && has_mapping {
        Some(ImportError::MappingOnlyForGeoPackage)
    } else {
        None
    }
}

/// Checks the sources of an import: `selected` is the format chosen (or
/// that of the first source), `detected` the format of each source.
pub fn check_import_sources(selected: SourceFormat, detected: &Vec<SourceFormat>, has_mapping: bool) -> (r: Result<
    (),
    ImportError,
>)
    ensures
        match import_refusal(selected, detected@, has_mapping) {
            Some(e) => r == Err::<(), ImportError>(e),
            None => r is Ok,
        },
{
    if detected.len() == 0 {
        return Err(ImportError::NoSources);
    }
    if selected != SourceFormat::GeoPackage && detected.len() != 1 {
        return Err(ImportError::MultiSourceNotGeoPackage);
    }
    let mut i: usize = 0;
    while i < detected.len()
        invariant
            i <= detected@.len(),
            detected@.len() > 0,
            !(selected != SourceFormat::GeoPackage && detected@.len() != 1),
            forall|j: int| 0 <= j < i ==> detected@[j] == selected,
        decreases detected@.len() - i,
    {
        if detected[i] != selected {
            proof {
                assert(detected@[i as int] != selected);
            }
            return Err(ImportError::MixedFormats);
        }
        i += 1;
    }
    if selected == SourceFormat::GeoPackage && !has_mapping {
        return Err(ImportError::MappingRequired);
    }
    if selected != SourceFormat::GeoPackage && has_mapping {
        return Err(ImportError::MappingOnlyForGeoPackage);
    }
    Ok(())
}

/// The id of a bundle of a dataset: its kind, the dataset id and the
/// first twelve characters of the source digest, joined by hyphens.
pub fn bundle_id(kind: &str, dataset: &str, sha256: &str) -> (r: String)
    requires
        sha256@.len() >= 12,
    ensures
        r@ == kind@ + seq!['-'] + dataset@ + seq!['-'] + sha256@.take(12),
{
    let mut out = chars_of(kind);
    out.push('-');
    let d = chars_of(dataset);
    let mut i: usize = 0;
    let ghost head = out@;
    while i < d.len()
        invariant
            i <= d@.len(),
            out@ == head + d@.take(i as int),
        decreases d@.len() - i,
    {
        out.push(d[i]);
        i += 1;
        proof {
            assert(out@ =~= head + d@.take(i as int));
        }
    }
    out.push('-');
    let s = chars_of(sha256);
    let ghost mid = out@;
    let mut j: usize = 0;
    while j < 12
        invariant
            j <= 12,
            s@.len() >= 12,
            out@ == mid + s@.take(j as int),
        decreases 12 - j,
    {
        out.push(s[j]);
        j += 1;
        proof {
            assert(out@ =~= mid + s@.take(j as int));
        }
    }
    proof {
        assert(d@.take(d@.len() as int) =~= d@);
        assert(out@ =~= kind@ + seq!['-'] + dataset@ + seq!['-'] + sha256@.take(12));
    }
    string_from_chars(&out)
}

} // verus!
