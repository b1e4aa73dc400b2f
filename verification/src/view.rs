//! Plain view-model types handed to the terminal renderer, and their
//! construction from the tree store. Everything here is strings, numbers and
//! flags; drawing them is the embedding binary's job.

use vstd::prelude::*;
use vstd::string::*;

use crate::model::{DiskUsage, FsEntryKind, NodeSummary, ScanProgress};
use crate::store::TreeStore;
use crate::text::{file_name_of, format_bytes, spec_file_name, u64_to_string};

verus! {

pub const HEADER_HEIGHT: u16 = 5;

pub const FOOTER_HEIGHT: u16 = 6;

/// One table row, ready for display.
#[derive(Debug)]
pub struct RowModel {
    pub name: String,
    pub kind: FsEntryKind,
    pub size_bytes: u64,
    pub path_display: String,
    pub is_loading: bool,
}

/// The delete-confirmation dialog, as far as the renderer needs to know.
#[derive(Debug, Clone)]
pub enum DialogStateView {
    Inactive,
    Confirm { target: String },
    TypePhrase { target: String, typed: String },
}

/// Everything one frame of the UI shows.
#[derive(Debug)]
pub struct ViewModel {
    pub current_root: String,
    pub disk_line: String,
    pub metric: String,
    pub sort_mode: String,
    pub scan_status: String,
    pub filter: String,
    pub filter_mode: bool,
    pub rows: Vec<RowModel>,
    pub selected_index: usize,
    pub table_scroll_offset: usize,
    pub show_name_column: bool,
    pub show_kind_column: bool,
    pub show_size_column: bool,
    pub show_relative_column: bool,
    pub show_path_column: bool,
    pub warning_line: Option<String>,
    pub message_line: Option<String>,
    pub delete_enabled: bool,
    pub dialog: DialogStateView,
    pub loading_hint: Option<String>,
    pub live_loading_line: Option<String>,
    pub help_modal_open: bool,
}

/// UI state that lives outside the store but goes into the frame: dialog,
/// column toggles and modal flags.
#[derive(Debug)]
pub struct FrameInputs {
    pub disk_line: String,
    pub spinner_tick: usize,
    pub delete_enabled: bool,
    pub help_modal_open: bool,
    pub dialog: DialogStateView,
    pub show_name_column: bool,
    pub show_kind_column: bool,
    pub show_size_column: bool,
    pub show_relative_column: bool,
    pub show_path_column: bool,
}

fn spinner_char(tick: usize) -> char {
    let r = tick % 4;
    if r == 0 {
        '|'
    } else if r == 1 {
        '/'
    } else if r == 2 {
        '-'
    } else {
        '\\'
    }
}

fn progress_suffix(progress: &ScanProgress) -> String {
    let mut s = String::new();
    s.append(" scanning... visited ");
    s.append(u64_to_string(progress.visited_entries).as_str());
    s.append(" entries, warnings ");
    s.append(u64_to_string(progress.warnings).as_str());
    s
}

/// Build one frame's view model from the store and the UI-only inputs. The
/// rows mirror the visible paths one to one, each showing its node's size
/// under the chosen metric.
pub fn build_view_model(store: &TreeStore, inputs: FrameInputs) -> (r: ViewModel)
    requires
        store.wf(),
    ensures
        r.selected_index == store.spec_selected_index(),
        r.table_scroll_offset == store.spec_scroll_offset(),
        r.filter_mode == store.spec_filter_mode(),
        r.current_root == store.spec_current_root(),
        r.filter == store.spec_filter(),
        r.rows@.len() == store.spec_visible_paths().len(),
        forall|i: int|
            0 <= i < r.rows@.len() ==> (#[trigger] r.rows@[i]).size_bytes == store.spec_size_of(
                r.rows@[i].path_display@,
            ),
        forall|ord: Seq<Seq<char>>|
            #[trigger] store.spec_is_display_order(ord) ==> (r.rows@.len() == ord.len() && (
            forall|i: int|
                0 <= i < ord.len() ==> ((#[trigger] r.rows@[i]).path_display@ == ord[i]
                    && r.rows@[i].kind == store.node_at(ord[i]).kind && r.rows@[i].size_bytes
                    == store.spec_size_of(ord[i]) && r.rows@[i].is_loading == !store.node_at(
                    ord[i],
                ).is_complete && r.rows@[i].name@ == (if spec_file_name(ord[i]).len() == 0 {
                    ord[i]
                } else {
                    spec_file_name(ord[i])
                })))),
{
    broadcast use vstd::seq_lib::group_to_multiset_ensures;

    let paths = store.visible_node_paths();
    let mut rows: Vec<RowModel> = Vec::new();
    let n = paths.len();
    proof {
        assert(paths@.map_values(|s: String| s@).to_multiset().len() == paths@.map_values(
            |s: String| s@,
        ).len());
        assert(store.spec_visible_paths().to_multiset().len()
            == store.spec_visible_paths().len());
    }
    let mut i: usize = 0;
    while i < n
        invariant
            store.wf(),
            n == paths@.len(),
            paths@.map_values(|s: String| s@).to_multiset()
                == store.spec_visible_paths().to_multiset(),
            i <= n,
            rows@.len() == i,
            forall|k: int|
                0 <= k < rows@.len() ==> (#[trigger] rows@[k]).size_bytes == store.spec_size_of(
                    rows@[k].path_display@,
                ),
            forall|k: int|
                0 <= k < rows@.len() ==> ((#[trigger] rows@[k]).path_display@ == paths@[k]@
                    && rows@[k].kind == store.node_at(paths@[k]@).kind && rows@[k].is_loading
                    == !store.node_at(paths@[k]@).is_complete && rows@[k].name@ == (
                if spec_file_name(paths@[k]@).len() == 0 {
                    paths@[k]@
                } else {
                    spec_file_name(paths@[k]@)
                })),
        decreases n - i,
    {
        proof {
            broadcast use vstd::seq_lib::group_to_multiset_ensures;

            let pv = paths@.map_values(|s: String| s@);
            assert(pv[i as int] == paths@[i as int]@);
            assert(pv.contains(pv[i as int]));
            assert(pv.to_multiset().contains(pv[i as int]));
            assert(store.spec_visible_paths().to_multiset().contains(pv[i as int]));
            assert(store.spec_visible_paths().contains(pv[i as int]));
            let pvi = pv[i as int];
            let j = choose|j: int|
                0 <= j < store.spec_visible_paths().len() && store.spec_visible_paths()[j] == pvi;
            TreeStore::lemma_visible_paths_pass_the_filter(*store, j);
            assert(store.has_node(paths@[i as int]@));
        }
        match store.get_node(&paths[i]) {
            Some(node) => {
                let name_part = file_name_of(&node.path);
                let name = if name_part.as_str().unicode_len() == 0 {
                    node.path.clone()
                } else {
                    name_part
                };
                rows.push(
                    RowModel {
                        name,
                        kind: node.kind,
                        size_bytes: node.metric_bytes(store.metric()),
                        path_display: node.path.clone(),
                        is_loading: !node.is_complete,
                    },
                );
            },
            None => {
                proof {
                    assert(false);
                }
            },
        }
        i += 1;
    }
    proof {
        let pv = paths@.map_values(|s: String| s@);
        assert forall|a: int, b: int|
            0 <= a < b < pv.len() implies store.spec_path_le(#[trigger] pv[a], #[trigger] pv[b]) by {
            assert(pv[a] == paths@[a]@ && pv[b] == paths@[b]@);
        }
        assert(store.spec_is_display_order(pv));
        assert forall|ord: Seq<Seq<char>>|
            #[trigger] store.spec_is_display_order(ord) implies ord == pv by {
            store.lemma_display_order_unique(ord, pv);
        }
        assert forall|k: int|
            0 <= k < pv.len() implies ((#[trigger] rows@[k]).path_display@ == pv[k]
                && rows@[k].kind == store.node_at(pv[k]).kind && rows@[k].size_bytes
                == store.spec_size_of(pv[k]) && rows@[k].is_loading == !store.node_at(
                pv[k],
            ).is_complete && rows@[k].name@ == (if spec_file_name(pv[k]).len() == 0 {
                pv[k]
            } else {
                spec_file_name(pv[k])
            })) by {
            assert(pv[k] == paths@[k]@);
        }
    }

    let scanning = store.scan_state().is_scanning();
    let show_loading_hint = rows.len() == 0 && scanning;
    let loading_hint: Option<String> = if show_loading_hint {
        let progress = match store.scan_state().progress() {
            Some(p) => p,
            None => ScanProgress::default(),
        };
        let mut hint = String::new();
        crate::text::push_char(&mut hint, spinner_char(inputs.spinner_tick));
        hint.append(progress_suffix(&progress).as_str());
        Some(hint)
    } else {
        None
    };
    let live_loading_line: Option<String> = if scanning {
        let root: &String = match store.active_scan_root().as_ref() {
            Some(r) => r,
            None => store.current_root(),
        };
        let mut line = String::new();
        crate::text::push_char(&mut line, spinner_char(inputs.spinner_tick));
        line.append(" live scan in progress for ");
        line.append(root.as_str());
        line.append("; results update as they are discovered");
        Some(line)
    } else {
        None
    };
    let warning_line: Option<String> = match store.last_warning() {
        Some(w) => Some(w.clone()),
        None => None,
    };
    let message_line: Option<String> = match store.message().as_ref() {
        Some(m) => Some(m.clone()),
        None => None,
    };

    ViewModel {
        current_root: store.current_root().clone(),
        disk_line: inputs.disk_line,
        metric: String::from_str(store.metric().as_str()),
        sort_mode: String::from_str(store.sort_mode().as_str()),
        scan_status: store.scan_state().as_status(),
        filter: store.filter().clone(),
        filter_mode: store.filter_mode(),
        rows,
        selected_index: store.selected_index(),
        table_scroll_offset: store.scroll_offset(),
        show_name_column: inputs.show_name_column,
        show_kind_column: inputs.show_kind_column,
        show_size_column: inputs.show_size_column,
        show_relative_column: inputs.show_relative_column,
        show_path_column: inputs.show_path_column,
        warning_line,
        message_line,
        delete_enabled: inputs.delete_enabled,
        dialog: inputs.dialog,
        loading_hint,
        live_loading_line,
        help_modal_open: inputs.help_modal_open,
    }
}

/// The free bytes the disk line shows: available space, never above total.
pub open spec fn spec_disk_free(u: DiskUsage) -> u64 {
    if u.available_bytes < u.total_bytes {
        u.available_bytes
    } else {
        u.total_bytes
    }
}

/// Used space in permille of the total, rounded to nearest with ties to
/// even, clamped to 1000.
pub open spec fn spec_disk_permille(u: DiskUsage) -> u64 {
    if u.total_bytes == 0 {
        0
    } else {
        let used = u.total_bytes - spec_disk_free(u);
        let t = used * 1000;
        let q = t / (u.total_bytes as int);
        let rem = t % (u.total_bytes as int);
        if q >= 1000 {
            1000
        } else if 2 * rem > u.total_bytes || (2 * rem == u.total_bytes && q % 2 == 1) {
            (q + 1) as u64
        } else {
            q as u64
        }
    }
}

/// The exact text of the disk line for reported figures.
pub open spec fn spec_disk_line(u: DiskUsage) -> Seq<char> {
    "Disk: "@ + crate::text::spec_format_bytes(u.total_bytes) + " total | "@
        + crate::text::spec_format_bytes((u.total_bytes - spec_disk_free(u)) as u64) + " used ("@
        + crate::text::spec_digits((spec_disk_permille(u) / 10) as nat) + "."@
        + crate::text::spec_digits((spec_disk_permille(u) % 10) as nat) + "%) | "@
        + crate::text::spec_format_bytes(spec_disk_free(u)) + " free"@
}

/// The header's disk line: totals of the mount holding the current root, or
/// a placeholder when the platform could not report them. The used
/// percentage is written with one decimal place, computed in integer
/// permille rounded half to even.
pub fn build_disk_line(usage: Option<DiskUsage>) -> (r: String)
    ensures
        usage is None ==> r@ == "Disk: unavailable"@,
        (usage matches Some(u) ==> r@ == spec_disk_line(u)),
{
    let usage = match usage {
        Some(u) => u,
        None => {
            return String::from_str("Disk: unavailable");
        },
    };
    let total = usage.total_bytes;
    let free = if usage.available_bytes < total {
        usage.available_bytes
    } else {
        total
    };
    let used = total - free;
    let permille: u64 = if total == 0 {
        0
    } else {
        let t: u128 = (used as u128) * 1000;
        let q_raw: u128 = t / (total as u128);
        let rem: u128 = t % (total as u128);
        proof {
            assert(t as int == (used as int) * 1000);
            assert(q_raw as int == (used as int) * 1000 / (total as int));
            assert(rem as int == (used as int) * 1000 % (total as int));
        }
        let round_up = 2 * rem > (total as u128) || (2 * rem == (total as u128) && q_raw % 2 == 1);
        if q_raw >= 1000 {
            1000
        } else {
            (q_raw as u64) + if round_up {
                1
            } else {
                0
            }
        }
    };
    proof {
        assert(free == spec_disk_free(usage));
        assert(permille == spec_disk_permille(usage));
    }
    let mut s = String::from_str("Disk: ");
    s.append(format_bytes(total).as_str());
    s.append(" total | ");
    s.append(format_bytes(used).as_str());
    s.append(" used (");
    s.append(u64_to_string(permille / 10).as_str());
    crate::text::push_char(&mut s, '.');
    s.append(u64_to_string(permille % 10).as_str());
    s.append("%) | ");
    s.append(format_bytes(free).as_str());
    s.append(" free");
    proof {
        reveal_strlit(".");
        assert(s@ =~= spec_disk_line(usage));
    }
    s
}

} // verus!
