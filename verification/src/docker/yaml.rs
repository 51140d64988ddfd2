//! Line-based scanner for YAML `image:` keys, as Compose services and job
//! containers spell them.

use crate::docker::image;
use crate::docker::image::ImageLocation;
use crate::located;
use crate::located::{LineScanner, Span};
use crate::text;
use crate::yaml_scan;
use vstd::prelude::*;

verus! {

/// The tracked image on a line: the value of an `image:` key.
pub open spec fn image_on_line(line: Seq<char>) -> Option<Span> {
    match yaml_scan::scalar_bounds(line, "image:"@) {
        None => None,
        Some(b) => match image::tracked_image(line.subrange(b.0, b.1)) {
            None => None,
            Some(p) => Some(located::nested(b.0, p)),
        },
    }
}

/// The scanner for `image:` keys.
pub struct ImageScanner;

impl LineScanner for ImageScanner {
    type Loc = ImageLocation;

    open spec fn at(&self, line: Seq<char>) -> Option<Span> {
        image_on_line(line)
    }

    proof fn found_stands_in(&self, line: Seq<char>) {
        match image_on_line(line) {
            Some(_) => {
                yaml_scan::lemma_scalar_bounds(line, "image:"@);
                let b = yaml_scan::scalar_bounds(line, "image:"@)->0;
                let part = line.subrange(b.0, b.1);
                image::lemma_image_stands_in(part);
                located::lemma_nested(line, b.0, b.1, 0, image::tracked_image(part)->0);
            },
            None => {},
        }
    }

    open spec fn writable(&self, new: Seq<char>) -> bool {
        image::writable_tag(new) && yaml_scan::plain(new)
    }

    proof fn rewrite_reads_back(&self, line: Seq<char>, new: Seq<char>) {
        assert(text::white_space('\n'));
        let b = yaml_scan::scalar_bounds(line, "image:"@)->0;
        yaml_scan::lemma_scalar_bounds(line, "image:"@);
        let part = line.subrange(b.0, b.1);
        let q = image::tracked_image(part)->0;
        image::lemma_image_stands_in(part);
        image::lemma_image_rewritten(part, new);
        let at = b.0 + q.start;
        yaml_scan::lemma_scalar_rewritten(line, "image:"@, at, new);
        yaml_scan::lemma_scalar_single_line(line, "image:"@);
        let t = text::spliced(line, at, b.1, new);
        assert(t.subrange(b.0, at + new.len()) =~= part.take(q.start) + new);
        assert forall|i: int| 0 <= i < q.value.len() implies q.value[i] != '\n' by {
            assert(q.value[i] == part[q.start + i]);
            assert(q.value[i] == line[at + i]);
        }
    }

    /// Scans a single line.
    fn scan_line(&self, line: &str, line_offset: usize) -> (r: Option<ImageLocation>) {
        match yaml_scan::scalar_positions(line, "image:") {
            None => None,
            Some(b) => {
                let part: &str = line.substring_char(b.0, b.1);
                let at: usize = text::byte_offset(line, b.0);
                let total: usize = line.as_bytes().len();
                proof {
                    assert(part@ =~= line@.subrange(b.0 as int, b.1 as int));
                    located::lemma_part_fits(line@, b.0 as int, b.1 as int);
                    match image::tracked_image(part@) {
                        Some(p) => {
                            image::lemma_image_stands_in(part@);
                            located::lemma_nested(
                                line@,
                                b.0 as int,
                                b.1 as int,
                                line_offset as int,
                                p,
                            );
                        },
                        None => {},
                    }
                }
                image::locate(part, line_offset + at)
            },
        }
    }
}

/// Scans YAML text and returns every tracked `image:` value.
pub fn scan(content: &str) -> (r: Vec<ImageLocation>)
    ensures
        located::spans(r@) == located::found(ImageScanner, content@),
{
    located::scan_lines(&ImageScanner, content)
}

} // verus!
