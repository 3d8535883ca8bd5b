# ppt_maker

A slide-deck maker: it plans the pages of a presentation from an outline,
assigns layout families and styles to them, builds the prompts for an image
service, cleans and cuts the pictures it gets back, and packages the result
as PowerPoint or PDF.

## Layout

- `src/` is the library, verified with Verus. Every public function states
  its result in its `ensures`, over spec functions of plain values; the
  properties that relate several calls are public proof functions whose
  names start with `law_`. Some of them:
  - `layout_assigner`: `law_assign_follows_policy`, `law_neighbours_differ`,
    `law_last_page_takes_first_family`.
  - `components`, `alpha`: connected regions of masks and alpha channels,
    found breadth-first; `law_grow_again_is_stable`,
    `law_component_inside`, `law_cleanup_twice`, `law_prune_is_cleanup`.
  - `style_file`: `law_style_file_round_trip`; `ooxml`:
    `law_escape_round_trip`; `page_files`: `law_renumbering_is_consecutive`,
    `law_renames_never_overwrite`.
- Calls into `base64` and `roxmltree`, and a few `std` string functions,
  go through small trusted wrappers whose contracts say what the outside
  function returns.
- `tests/` runs the library on concrete values.
- `app/` is the command-line program around the library: files, the text
  and image services, image decoding and encoding, and PDF writing.
