use vstd::prelude::*;
use vstd::string::StringExecFns;
use crate::cmdline::DockerFile;

verus! {

/// The version the recipe names: the override when one was given, else the
/// tool's own version.
pub open spec fn picked_version(override_version: Option<String>, crate_version: Seq<char>) -> Seq<
    char,
> {
    match override_version {
        Some(v) => v@,
        None => crate_version,
    }
}

/// The recipe text for running diff inside a multi-stage container build:
/// compute the delta of the two images in a scratch stage, then lay it over
/// the chosen base.
pub open spec fn diff_recipe(
    image_a: Seq<char>,
    image_b: Seq<char>,
    source: Seq<char>,
    version: Seq<char>,
) -> Seq<char> {
    "\n# Calculate delta under a temporary image\nFROM scratch AS delta\nCOPY --from="@ + image_a
        + " / /source/\nCOPY --from="@ + image_b
        + " / /delta/\nCOPY --from=deltaimage/deltaimage:"@ + version
        + " /opt/deltaimage /opt/deltaimage\nRUN [\"/opt/deltaimage\", \"diff\", \"/source\", \"/delta\"]\n\n# Make the deltaimage\nFROM "@
        + source + "\nCOPY --from=delta /delta /__deltaimage__.delta\n"@
}

/// The recipe text for running apply inside a multi-stage container build:
/// reconstruct the original image from a delta image (optionally laying an
/// unlinked source over it first).
pub open spec fn apply_recipe(
    delta_image: Seq<char>,
    copy_source: Seq<char>,
    version: Seq<char>,
) -> Seq<char> {
    "\n# Apply a delta under a temporary image\nFROM "@ + delta_image + " AS applied\n"@
        + copy_source + "\nCOPY --from=deltaimage/deltaimage:"@ + version
        + " /opt/deltaimage /opt/deltaimage\nUSER root\nRUN [\"/opt/deltaimage\", \"apply\", \"/\", \"/__deltaimage__.delta\"]\n\n# Make the original image by applying the delta\nFROM scratch\nCOPY --from=applied /__deltaimage__.delta/ /\n"@
}

/// The copy line of the apply recipe: present only when an unlinked source
/// image must be laid over the delta image first.
pub open spec fn apply_copy_source(unlinked_source: Option<String>) -> Seq<char> {
    match unlinked_source {
        Some(s) => "COPY --from="@ + s@ + " / /"@,
        None => Seq::empty(),
    }
}

/// Produces the container-build recipe for the given generator arguments,
/// as the tool prints it. `crate_version` is the building tool's own
/// version, used when no override is given.
pub fn docker_file(df: &DockerFile, crate_version: &String) -> (r: String)
    ensures
        (match df {
            DockerFile::Diff { image_a, image_b, unlinked, override_version } => r@ == diff_recipe(
                image_a@,
                image_b@,
                if *unlinked {
                    "scratch"@
                } else {
                    image_a@
                },
                picked_version(*override_version, crate_version@),
            ),
            DockerFile::Apply { delta_image, unlinked_source, override_version } => r@
                == apply_recipe(
                delta_image@,
                apply_copy_source(*unlinked_source),
                picked_version(*override_version, crate_version@),
            ),
        }),
{
    match df {
        DockerFile::Diff { image_a, image_b, unlinked, override_version } => {
            let mut out = String::new();
            out.append("\n# Calculate delta under a temporary image\nFROM scratch AS delta\nCOPY --from=");
            out.append(image_a.as_str());
            out.append(" / /source/\nCOPY --from=");
            out.append(image_b.as_str());
            out.append(" / /delta/\nCOPY --from=deltaimage/deltaimage:");
            match override_version {
                Some(v) => out.append(v.as_str()),
                None => out.append(crate_version.as_str()),
            }
            out.append(" /opt/deltaimage /opt/deltaimage\nRUN [\"/opt/deltaimage\", \"diff\", \"/source\", \"/delta\"]\n\n# Make the deltaimage\nFROM ");
            if *unlinked {
                out.append("scratch");
            } else {
                out.append(image_a.as_str());
            }
            out.append("\nCOPY --from=delta /delta /__deltaimage__.delta\n");
            out
        },
        DockerFile::Apply { delta_image, unlinked_source, override_version } => {
            let mut out = String::new();
            out.append("\n# Apply a delta under a temporary image\nFROM ");
            out.append(delta_image.as_str());
            out.append(" AS applied\n");
            match unlinked_source {
                Some(s) => {
                    out.append("COPY --from=");
                    out.append(s.as_str());
                    out.append(" / /");
                },
                None => {},
            }
            out.append("\nCOPY --from=deltaimage/deltaimage:");
            match override_version {
                Some(v) => out.append(v.as_str()),
                None => out.append(crate_version.as_str()),
            }
            out.append(" /opt/deltaimage /opt/deltaimage\nUSER root\nRUN [\"/opt/deltaimage\", \"apply\", \"/\", \"/__deltaimage__.delta\"]\n\n# Make the original image by applying the delta\nFROM scratch\nCOPY --from=applied /__deltaimage__.delta/ /\n");
            out
        },
    }
}

} // verus!
