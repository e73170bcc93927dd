//! The texture-info grammar of the catalog's configuration tables: a line
//! is `texture|block` for a bare block, or `texture|block|k=v,k=v,...`
//! when the block carries state properties.

use vstd::prelude::*;
use crate::errors::Error;
use crate::filter::split_on;
use crate::filter::split_spec;

verus! {

/// One parsed texture-info line: the texture name, the block identifier it
/// stands for, and the optional property mapping.
#[derive(Debug)]
pub struct TextureInfo {
    pub texture_name: String,
    pub block_id: String,
    pub properties: Option<Vec<(String, String)>>,
}

/// A properties field parses when every comma-separated definition holds
/// exactly one `=`.
pub open spec fn properties_grammar_spec(props: Seq<char>) -> bool {
    forall|i: int|
        0 <= i < split_spec(props, ',').len() ==> (#[trigger] split_spec(
            split_spec(props, ',')[i],
            '=',
        )).len() == 2
}

/// A texture-info line parses when it has two `|`-separated fields, or
/// three with a well-formed properties field.
pub open spec fn line_grammar_spec(line: Seq<char>) -> bool {
    let parts = split_spec(line, '|');
    ||| parts.len() == 2
    ||| (parts.len() == 3 && properties_grammar_spec(parts[2]))
}

/// Parses one texture-info line. Exactly the lines of the grammar are
/// accepted; a malformed line is a configuration error. On success every
/// field is the corresponding piece of the split line.
pub fn parse_texture_info(line: &str) -> (r: Result<TextureInfo, Error>)
    ensures
        r is Ok <==> line_grammar_spec(line@),
        r matches Ok(t) ==> {
            let parts = split_spec(line@, '|');
            &&& t.texture_name@ == parts[0]
            &&& t.block_id@ == parts[1]
            &&& (parts.len() == 2 ==> t.properties is None)
            &&& (parts.len() == 3 ==> (t.properties matches Some(ps) && {
                let defs = split_spec(parts[2], ',');
                &&& ps.len() == defs.len()
                &&& forall|i: int|
                    0 <= i < defs.len() ==> (#[trigger] ps[i]).0@ == split_spec(defs[i], '=')[0]
                        && ps[i].1@ == split_spec(defs[i], '=')[1]
            }))
        },
        r is Err ==> r == Err::<TextureInfo, Error>(Error::Configuration),
{
    let parts: Vec<String> = split_on(line, '|');
    let ghost parts_v = split_spec(line@, '|');
    proof {
        assert(parts@.map_values(|p: String| p@).len() == parts@.len());
    }
    if parts.len() == 2 {
        proof {
            assert(parts@.map_values(|p: String| p@)[0] == parts[0]@);
            assert(parts@.map_values(|p: String| p@)[1] == parts[1]@);
        }
        Ok(
            TextureInfo {
                texture_name: parts[0].clone(),
                block_id: parts[1].clone(),
                properties: None,
            },
        )
    } else if parts.len() == 3 {
        proof {
            assert(parts@.map_values(|p: String| p@)[0] == parts[0]@);
            assert(parts@.map_values(|p: String| p@)[1] == parts[1]@);
            assert(parts@.map_values(|p: String| p@)[2] == parts[2]@);
        }
        let defs: Vec<String> = split_on(parts[2].as_str(), ',');
        let ghost defs_v = split_spec(parts_v[2], ',');
        proof {
            assert(defs@.map_values(|p: String| p@).len() == defs@.len());
        }
        let mut ps: Vec<(String, String)> = Vec::new();
        let mut i: usize = 0;
        while i < defs.len()
            invariant
                parts_v == split_spec(line@, '|'),
                parts_v.len() == 3,
                parts@.map_values(|p: String| p@) == parts_v,
                parts@.len() == 3,
                defs@.map_values(|p: String| p@) == defs_v,
                defs_v == split_spec(parts_v[2], ','),
                i <= defs.len(),
                ps.len() == i,
                forall|j: int|
                    0 <= j < i ==> (#[trigger] split_spec(defs_v[j], '=')).len() == 2,
                forall|j: int|
                    0 <= j < i ==> (#[trigger] ps[j]).0@ == split_spec(defs_v[j], '=')[0]
                        && ps[j].1@ == split_spec(defs_v[j], '=')[1],
            decreases defs.len() - i,
        {
            proof {
                assert(defs@.map_values(|p: String| p@)[i as int] == defs[i as int]@);
            }
            let kv: Vec<String> = split_on(defs[i].as_str(), '=');
            proof {
                assert(kv@.map_values(|p: String| p@).len() == kv@.len());
            }
            if kv.len() != 2 {
                proof {
                    assert(split_spec(defs_v[i as int], '=').len() != 2);
                    assert(!properties_grammar_spec(parts_v[2]));
                }
                return Err(Error::Configuration);
            }
            proof {
                assert(kv@.map_values(|p: String| p@)[0] == kv[0]@);
                assert(kv@.map_values(|p: String| p@)[1] == kv[1]@);
            }
            ps.push((kv[0].clone(), kv[1].clone()));
            i += 1;
        }
        Ok(
            TextureInfo {
                texture_name: parts[0].clone(),
                block_id: parts[1].clone(),
                properties: Some(ps),
            },
        )
    } else {
        Err(Error::Configuration)
    }
}

} // verus!
