//! Named icon and shape assets defined in an Aurora SVG template.
use vstd::prelude::*;

use crate::layout::ids::{id_views, ids_sorted, string_set_insert};
use crate::render::defs::{attribute_value, extract_attribute_value, find_next_group_start, next_group_start};
use crate::text::{chars_of, find_from, find_from_exec, lemma_find_from_found, string_from_chars, sub_chars};

verus! {

/// Named SVG asset ids discovered in the template `<defs>` section, each list sorted and
/// without duplicates.
#[derive(Debug, Clone, PartialEq, Eq, Default)]
pub struct SvgTemplateDefs {
    pub icon_ids: Vec<String>,
    pub shape_ids: Vec<String>,
}

/// Errors raised while reading or extracting defs from the Aurora SVG template.
#[derive(Debug, Clone, PartialEq, Eq)]
pub enum SvgTemplateDefsError {
    Io(String),
    TemplateMissing(String),
}

/// The content range of the first `<defs>` element.
pub open spec fn defs_range(svg: Seq<char>) -> Option<(int, int)> {
    match find_from(svg, "<defs"@, 0) {
        None => None,
        Some(ds) => match find_from(svg, ">"@, ds) {
            None => None,
            Some(oe) => match find_from(svg, "</defs>"@, oe + 1) {
                None => None,
                Some(ce) => Some((oe + 1, ce)),
            },
        },
    }
}

/// Icon ids (from group ids `i-…`, without the prefix) and shape ids (the other group ids)
/// of the groups opening at or after `cursor`.
pub open spec fn template_ids_from(c: Seq<char>, cursor: int) -> (Set<Seq<char>>, Set<Seq<char>>)
    decreases c.len() + 1 - cursor,
{
    if cursor < 0 || cursor > c.len() {
        (Set::empty(), Set::empty())
    } else {
        match next_group_start(c, cursor) {
            None => (Set::empty(), Set::empty()),
            Some(gs) => if cursor <= gs < c.len() {
                match find_from(c, ">"@, gs) {
                    None => (Set::empty(), Set::empty()),
                    Some(ge) => if gs <= ge < c.len() {
                        let rest = template_ids_from(c, ge + 1);
                        match attribute_value(c.subrange(gs, ge + 1), "id"@) {
                            Some(id) => if id.len() > 2 && id[0] == 'i' && id[1] == '-' {
                                (rest.0.insert(id.subrange(2, id.len() as int)), rest.1)
                            } else {
                                (rest.0, rest.1.insert(id))
                            },
                            None => rest,
                        }
                    } else {
                        (Set::empty(), Set::empty())
                    },
                }
            } else {
                (Set::empty(), Set::empty())
            },
        }
    }
}

/// The icon and shape ids of a template; none without a `<defs>` element.
pub open spec fn template_ids(svg: Seq<char>) -> (Set<Seq<char>>, Set<Seq<char>>) {
    match defs_range(svg) {
        None => (Set::empty(), Set::empty()),
        Some((a, b)) => template_ids_from(svg.subrange(a, b), 0),
    }
}

impl SvgTemplateDefs {
    /// Extracts the icon and shape ids of a template's `<defs>`; see [`template_ids`].
    pub fn parse(svg_template: &str) -> (d: SvgTemplateDefs)
        ensures
            ids_sorted(id_views(d.icon_ids@)),
            ids_sorted(id_views(d.shape_ids@)),
            id_views(d.icon_ids@).to_set() == template_ids(svg_template@).0,
            id_views(d.shape_ids@).to_set() == template_ids(svg_template@).1,
    {
        let mut defs = SvgTemplateDefs { icon_ids: Vec::new(), shape_ids: Vec::new() };
        proof {
            assert(id_views(defs.icon_ids@).to_set() =~= Set::empty());
            assert(id_views(defs.shape_ids@).to_set() =~= Set::empty());
        }
        let s = chars_of(svg_template);
        let s_len = s.len();
        let defs_open = chars_of("<defs");
        let gt = chars_of(">");
        let defs_close = chars_of("</defs>");
        proof {
            reveal_strlit(">");
        }
        let defs_start = match find_from_exec(s.as_slice(), defs_open.as_slice(), 0) {
            Some(i) => i,
            None => {
                return defs;
            },
        };
        let open_end = match find_from_exec(s.as_slice(), gt.as_slice(), defs_start) {
            Some(i) => i,
            None => {
                return defs;
            },
        };
        proof {
            lemma_find_from_found(s@, gt@, defs_start as int);
        }
        let content_end = match find_from_exec(s.as_slice(), defs_close.as_slice(), open_end + 1) {
            Some(i) => i,
            None => {
                return defs;
            },
        };
        proof {
            lemma_find_from_found(s@, defs_close@, (open_end + 1) as int);
        }
        let content = sub_chars(s.as_slice(), open_end + 1, content_end);
        let c_len = content.len();
        let mut cursor: usize = 0;
        while cursor <= content.len()
            invariant
                gt@ == ">"@,
                gt@.len() == 1,
                content@.len() == c_len,
                cursor <= content@.len() + 1,
                ids_sorted(id_views(defs.icon_ids@)),
                ids_sorted(id_views(defs.shape_ids@)),
                id_views(defs.icon_ids@).to_set().union(template_ids_from(content@, cursor as int).0) == template_ids_from(
                    content@,
                    0,
                ).0,
                id_views(defs.shape_ids@).to_set().union(template_ids_from(content@, cursor as int).1) == template_ids_from(
                    content@,
                    0,
                ).1,
            ensures
                ids_sorted(id_views(defs.icon_ids@)),
                ids_sorted(id_views(defs.shape_ids@)),
                id_views(defs.icon_ids@).to_set() == template_ids_from(content@, 0).0,
                id_views(defs.shape_ids@).to_set() == template_ids_from(content@, 0).1,
            decreases content@.len() + 1 - cursor,
        {
            let group_start = match find_next_group_start(content.as_slice(), cursor) {
                Some(g) => g,
                None => {
                    proof {
                        assert(id_views(defs.icon_ids@).to_set().union(template_ids_from(content@, cursor as int).0)
                            =~= id_views(defs.icon_ids@).to_set());
                        assert(id_views(defs.shape_ids@).to_set().union(template_ids_from(content@, cursor as int).1)
                            =~= id_views(defs.shape_ids@).to_set());
                    }
                    break;
                },
            };
            let group_end = match find_from_exec(content.as_slice(), gt.as_slice(), group_start) {
                Some(e) => e,
                None => {
                    proof {
                        assert(id_views(defs.icon_ids@).to_set().union(template_ids_from(content@, cursor as int).0)
                            =~= id_views(defs.icon_ids@).to_set());
                        assert(id_views(defs.shape_ids@).to_set().union(template_ids_from(content@, cursor as int).1)
                            =~= id_views(defs.shape_ids@).to_set());
                    }
                    break;
                },
            };
            proof {
                lemma_find_from_found(content@, gt@, group_start as int);
            }
            let tag = sub_chars(content.as_slice(), group_start, group_end + 1);
            let ghost icons_before = id_views(defs.icon_ids@);
            let ghost shapes_before = id_views(defs.shape_ids@);
            match extract_attribute_value(tag.as_slice(), "id") {
                Some(id) => {
                    if id.len() > 2 && id[0] == 'i' && id[1] == '-' {
                        let rest = sub_chars(id.as_slice(), 2, id.len());
                        string_set_insert(&mut defs.icon_ids, string_from_chars(rest.as_slice()));
                    } else {
                        string_set_insert(&mut defs.shape_ids, string_from_chars(id.as_slice()));
                    }
                },
                None => {},
            }
            proof {
                let next = template_ids_from(content@, group_end + 1);
                assert(id_views(defs.icon_ids@).to_set().union(next.0) =~= icons_before.to_set().union(
                    template_ids_from(content@, cursor as int).0,
                ));
                assert(id_views(defs.shape_ids@).to_set().union(next.1) =~= shapes_before.to_set().union(
                    template_ids_from(content@, cursor as int).1,
                ));
            }
            cursor = group_end + 1;
        }
        defs
    }
}

} // verus!
