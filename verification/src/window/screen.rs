//! The screen manager: a set of named pane managers, one of them active, with
//! a full-screen mode and a buffer for the last pointer position.

use vstd::prelude::*;
use crate::error::LayoutError;
use crate::geometry::{Direction, Point, Rect};
use crate::window::layout::{one_focused, tiles, PaneModel};
use crate::window::navigation::Heading;
use crate::window::pane::{
    large_screen,
    small_screen,
    Pane,
    PaneFlattened,
    PaneId,
    PaneManager,
    PaneView,
};
use crate::window::profiles::ProfileTable;

verus! {

/// Name of the built-in profile for small terminals.
pub const SMALL_SCREEN_STR: &'static str = "Defualt (Small)";

/// Name of the built-in profile for large terminals.
pub const LARGE_SCREEN_STR: &'static str = "Defualt (Large)";

/// What a screen manager is, seen from outside.
pub struct ScreenModel {
    pub profiles: Map<Seq<char>, PaneModel>,
    pub active: Seq<char>,
    pub use_default_profile: bool,
    pub full_screen: bool,
    pub pending_pointer: Option<Point>,
}

impl ScreenModel {
    /// The invariants of a screen manager: the two built-in profiles are
    /// registered, the active name is that of a registered profile, and every
    /// profile is a well-formed pane manager.
    pub open spec fn well_formed(self) -> bool {
        &&& self.profiles.dom().contains(SMALL_SCREEN_STR@)
        &&& self.profiles.dom().contains(LARGE_SCREEN_STR@)
        &&& self.profiles.dom().contains(self.active)
        &&& forall|name: Seq<char>| #[trigger]
            self.profiles.dom().contains(name) ==> self.profiles[name].well_formed()
    }

    /// The active profile.
    pub open spec fn current(self) -> PaneModel {
        self.profiles[self.active]
    }

    /// The screen with `manager` as its active profile.
    pub open spec fn with_current(self, manager: PaneModel) -> ScreenModel {
        ScreenModel { profiles: self.profiles.insert(self.active, manager), ..self }
    }

    /// The screen with the profile `name` active.
    pub open spec fn activate(self, name: Seq<char>) -> ScreenModel {
        ScreenModel { active: name, ..self }
    }

    /// The screen after the full-screen mode was switched.
    pub open spec fn toggle_full_screen(self) -> ScreenModel {
        ScreenModel { full_screen: !self.full_screen, ..self }
    }

    /// The screen after the pointer was seen at `(x, y)`. In full-screen mode
    /// pointer moves are ignored.
    pub open spec fn mouse_move(self, x: u16, y: u16) -> ScreenModel {
        if self.full_screen {
            self
        } else {
            ScreenModel { pending_pointer: Some(Point { x, y }), ..self }
        }
    }

    /// What is drawn into `area`. In full-screen mode that is the focused
    /// pane of the active profile alone, over the whole area; otherwise the
    /// flattened layout of the active profile.
    pub open spec fn flattened(self, area: Rect) -> Seq<PaneFlattened> {
        if self.full_screen {
            seq![
                PaneFlattened {
                    view: self.current().focused_pane().view,
                    id: self.current().focused_pane().id,
                    focused: true,
                    rect: area,
                },
            ]
        } else {
            self.current().flattened(area)
        }
    }
}

/// The screen that a new screen manager shows: the two built-in profiles,
/// the small one active, not in full-screen mode, no pointer position
/// pending.
pub open spec fn initial_screen() -> ScreenModel {
    ScreenModel {
        profiles: Map::<Seq<char>, PaneModel>::empty().insert(
            SMALL_SCREEN_STR@,
            small_screen(),
        ).insert(LARGE_SCREEN_STR@, large_screen()),
        active: SMALL_SCREEN_STR@,
        use_default_profile: true,
        full_screen: false,
        pending_pointer: None,
    }
}

/// The two built-in profiles have different names.
pub proof fn lemma_builtin_names_differ()
    ensures
        SMALL_SCREEN_STR@ != LARGE_SCREEN_STR@,
{
    reveal_strlit("Defualt (Small)");
    reveal_strlit("Defualt (Large)");
    assert(SMALL_SCREEN_STR@[9] == 'S');
    assert(LARGE_SCREEN_STR@[9] == 'L');
}

/// Switching the full-screen mode twice gives back the screen from before,
/// and with it what is drawn.
pub proof fn lemma_toggle_twice(screen: ScreenModel, area: Rect)
    ensures
        screen.toggle_full_screen().toggle_full_screen() == screen,
        screen.toggle_full_screen().toggle_full_screen().full_screen == screen.full_screen,
        screen.toggle_full_screen().toggle_full_screen().flattened(area) == screen.flattened(area),
{
}

/// In full-screen mode a pointer move changes nothing, and so leaves the
/// pending pointer position as it was.
pub proof fn lemma_mouse_move_in_full_screen(screen: ScreenModel, x: u16, y: u16)
    requires
        screen.full_screen,
    ensures
        screen.mouse_move(x, y) == screen,
        screen.mouse_move(x, y).pending_pointer == screen.pending_pointer,
{
}

/// Whatever the mode, exactly one entry of what is drawn is marked as
/// focused, and what is drawn tiles the area.
pub proof fn lemma_screen_flattened(screen: ScreenModel, area: Rect)
    requires
        screen.well_formed(),
        area.fits(),
    ensures
        one_focused(screen.flattened(area)),
        tiles(screen.flattened(area), area),
{
    let entries = screen.flattened(area);
    if screen.full_screen {
        assert(entries[0].focused);
        assert forall|px: int, py: int| #[trigger] area.covers(px, py) implies exists|i: int|
            0 <= i < entries.len() && #[trigger] entries[i].rect.covers(px, py) by {
            assert(entries[0].rect.covers(px, py));
        }
    } else {
        assert(screen.profiles.dom().contains(screen.active));
        crate::window::layout::lemma_flatten_tiles(
            screen.current().layout,
            area,
            screen.current().focused,
        );
        crate::window::layout::lemma_flatten_one_focused(
            screen.current().layout,
            area,
            screen.current().focused,
        );
    }
}

/// Tries to merge the focused pane `origin` with its neighbour in the
/// direction `heading`. The focus is on `origin` afterwards, whether the
/// merge was carried out or not.
fn merge_toward(manager: &mut PaneManager, origin: PaneId, heading: Heading) -> (merged: bool)
    requires
        old(manager).wf(),
        old(manager)@.focused == origin,
    ensures
        final(manager).wf(),
        merged == (old(manager)@.merge_outcome(origin, old(manager)@.neighbour(heading)) is Ok),
        final(manager)@ == if merged {
            old(manager)@.merge(origin, old(manager)@.neighbour(heading))
        } else {
            old(manager)@
        },
{
    let _ = manager.steer(heading);
    let candidate = match manager.get_focused_pane() {
        Ok(pane) => pane.id,
        Err(_) => origin,
    };
    match manager.merge(origin, candidate) {
        Ok(_) => true,
        Err(_) => {
            let restored = manager.focus_on(origin);
            assert(restored is Ok);
            false
        },
    }
}

/// Named pane managers with one of them active, a full-screen mode, and the
/// last pointer position seen outside that mode.
pub struct ScreenManager {
    panes: ProfileTable,
    current_pane: String,
    use_default_pane: bool,
    full_screen: bool,
    pending_mouse_move: Option<Point>,
}

impl View for ScreenManager {
    type V = ScreenModel;

    closed spec fn view(&self) -> ScreenModel {
        ScreenModel {
            profiles: self.panes@,
            active: self.current_pane@,
            use_default_profile: self.use_default_pane,
            full_screen: self.full_screen,
            pending_pointer: self.pending_mouse_move,
        }
    }
}

impl ScreenManager {
    /// The table of profiles is in order.
    pub closed spec fn tabled(&self) -> bool {
        self.panes.wf()
    }

    /// The screen manager is in order.
    pub open spec fn wf(&self) -> bool {
        self.tabled() && self@.well_formed()
    }

    /// A screen manager with the two built-in profiles, the small one active.
    pub fn new() -> (made: Result<ScreenManager, LayoutError>)
        ensures
            made matches Ok(screen) && screen.wf() && screen@ == initial_screen(),
    {
        let small = match PaneManager::default_small_screen() {
            Ok(m) => m,
            Err(e) => {
                return Err(e);
            },
        };
        let large = match PaneManager::default_large_screen() {
            Ok(m) => m,
            Err(e) => {
                return Err(e);
            },
        };
        let mut panes = ProfileTable::new();
        panes.insert(SMALL_SCREEN_STR, small);
        panes.insert(LARGE_SCREEN_STR, large);
        let screen = ScreenManager {
            panes,
            current_pane: SMALL_SCREEN_STR.to_owned(),
            use_default_pane: true,
            full_screen: false,
            pending_mouse_move: None,
        };
        proof {
            assert forall|name: Seq<char>| #[trigger]
                screen@.profiles.dom().contains(name) implies screen@.profiles[name].well_formed() by {
                screen.panes.lemma_entries_wf(name);
            }
        }
        Ok(screen)
    }

    /// Whether the screen is in full-screen mode.
    pub fn is_full_screen(&self) -> (on: bool)
        ensures
            on == self@.full_screen,
    {
        self.full_screen
    }

    /// The last pointer position seen outside full-screen mode, if none has
    /// been taken since.
    pub fn pending_mouse_move(&self) -> (point: Option<Point>)
        ensures
            point == self@.pending_pointer,
    {
        self.pending_mouse_move
    }

    /// Hands out the pending pointer position and leaves none pending. In
    /// full-screen mode the pending position is dropped and nothing is handed
    /// out.
    pub fn take_mouse_move(&mut self) -> (point: Option<Point>)
        ensures
            point == if old(self)@.full_screen {
                None
            } else {
                old(self)@.pending_pointer
            },
            final(self)@ == (ScreenModel { pending_pointer: None, ..old(self)@ }),
            old(self).wf() ==> final(self).wf(),
    {
        let pending = self.pending_mouse_move;
        self.pending_mouse_move = None;
        if self.full_screen {
            None
        } else {
            pending
        }
    }

    /// Whether the default profile for the size of the terminal is to be
    /// used.
    pub fn uses_default_pane_profile(&self) -> (on: bool)
        ensures
            on == self@.use_default_profile,
    {
        self.use_default_pane
    }

    /// The name of the active profile.
    pub fn current_pane_name(&self) -> (name: &str)
        ensures
            name@ == self@.active,
    {
        self.current_pane.as_str()
    }

    /// The focused pane of the active profile, for changing what it
    /// displays. The screen manager stays in order as long as the pane keeps
    /// its identifier.
    pub fn get_focused_pane(&mut self) -> (found: Result<&mut Pane, LayoutError>)
        requires
            old(self).wf(),
        ensures
            match found {
                Ok(pane) => {
                    &&& *pane == old(self)@.current().focused_pane()
                    &&& pane.id == old(self)@.current().focused
                    &&& final(self)@ == old(self)@.with_current(
                        old(self)@.current().with_focused_pane(*final(pane)),
                    )
                    &&& (final(pane).id == pane.id ==> final(self).wf())
                },
                Err(_) => false,
            },
    {
        match self.get_current_pane_mut() {
            Ok(manager) => manager.get_focused_pane_mut(),
            Err(e) => Err(e),
        }
    }

    /// The view that the focused pane of the active profile displays.
    pub fn get_focused_view(&mut self) -> (found: Result<PaneView, LayoutError>)
        requires
            old(self).wf(),
        ensures
            found == Ok::<PaneView, LayoutError>(old(self)@.current().focused_pane().view),
            *final(self) == *old(self),
    {
        match self.get_current_pane() {
            Ok(manager) => manager.get_focused_view(),
            Err(e) => Err(e),
        }
    }

    /// The names of the registered profiles, each once.
    pub fn get_available_pane_profiles(&self) -> (names: Vec<String>)
        requires
            self.wf(),
        ensures
            forall|name: Seq<char>|
                self@.profiles.dom().contains(name) <==> exists|i: int|
                    0 <= i < names@.len() && (#[trigger] names@[i])@ == name,
            forall|i: int, j: int|
                0 <= i < j < names@.len() ==> (#[trigger] names@[i])@ != (#[trigger] names@[j])@,
    {
        let names = self.panes.names();
        proof {
            self.panes.lemma_order();
            let order = self.panes.order();
            assert forall|name: Seq<char>|
                self@.profiles.dom().contains(name) <==> exists|i: int|
                    0 <= i < names@.len() && (#[trigger] names@[i])@ == name by {
                if self@.profiles.dom().contains(name) {
                    assert(self.panes@.dom().contains(name));
                    assert(order.contains(name));
                    let p = choose|p: int| 0 <= p < order.len() && order[p] == name;
                    assert(names@[p]@ == name);
                }
                if exists|i: int| 0 <= i < names@.len() && (#[trigger] names@[i])@ == name {
                    let p = choose|p: int| 0 <= p < names@.len() && (#[trigger] names@[p])@ == name;
                    assert(order[p] == name);
                    assert(order.contains(name));
                    assert(self.panes@.dom().contains(name));
                }
            }
            assert forall|i: int, j: int| 0 <= i < j < names@.len() implies (#[trigger] names@[i])@
                != (#[trigger] names@[j])@ by {
                assert(order[i] != order[j]);
            }
        }
        names
    }

    /// Says whether the default profile for the size of the terminal is to
    /// be used.
    pub fn use_default_pane_profile(&mut self, use_default_pane: bool)
        ensures
            final(self)@ == (ScreenModel { use_default_profile: use_default_pane, ..old(self)@ }),
            old(self).wf() ==> final(self).wf(),
    {
        self.use_default_pane = use_default_pane;
    }

    /// Registers `manager` as the profile `name`, in place of the profile
    /// that had that name, if there was one.
    pub fn add_pane_manager(&mut self, name: &str, manager: PaneManager)
        requires
            old(self).wf(),
            manager.wf(),
        ensures
            final(self).wf(),
            final(self)@ == (ScreenModel {
                profiles: old(self)@.profiles.insert(name@, manager@),
                ..old(self)@
            }),
    {
        self.panes.insert(name, manager);
    }

    /// Switches the full-screen mode on or off.
    pub fn toggle_full_screen(&mut self)
        ensures
            final(self)@ == old(self)@.toggle_full_screen(),
            old(self).wf() ==> final(self).wf(),
    {
        self.full_screen = !self.full_screen;
    }

    /// Records the pointer position `(x, y)` as pending, in place of an
    /// earlier one. In full-screen mode the call changes nothing.
    pub fn set_mouse_move(&mut self, x: u16, y: u16)
        ensures
            final(self)@ == old(self)@.mouse_move(x, y),
            old(self)@.full_screen ==> final(self)@.pending_pointer == old(self)@.pending_pointer,
            old(self).wf() ==> final(self).wf(),
    {
        if self.full_screen {
            return ;
        }
        self.pending_mouse_move = Some(Point::new(x, y));
    }

    /// The active profile.
    pub fn get_current_pane(&self) -> (found: Result<&PaneManager, LayoutError>)
        requires
            self.wf(),
        ensures
            found matches Ok(manager) && manager@ == self@.current() && manager.wf(),
    {
        match self.panes.get(self.current_pane.as_str()) {
            Some(manager) => Ok(manager),
            None => Err(LayoutError::NotFound),
        }
    }

    /// The active profile, for changing it. The screen manager stays in
    /// order as long as the profile does.
    pub fn get_current_pane_mut(&mut self) -> (found: Result<&mut PaneManager, LayoutError>)
        requires
            old(self).wf(),
        ensures
            match found {
                Ok(manager) => {
                    &&& manager@ == old(self)@.current()
                    &&& manager.wf()
                    &&& final(self)@ == old(self)@.with_current(final(manager)@)
                    &&& (final(manager).wf() ==> final(self).wf())
                },
                Err(_) => false,
            },
    {
        match self.panes.get_mut(self.current_pane.as_str()) {
            Some(manager) => Ok(manager),
            None => Err(LayoutError::NotFound),
        }
    }

    /// Brings the terminal into focus in the active profile. Refused in
    /// full-screen mode.
    pub fn enter_terminal(&mut self) -> (done: Result<(), LayoutError>)
        requires
            old(self).wf(),
        ensures
            final(self).wf(),
            match done {
                Ok(_) => {
                    &&& !old(self)@.full_screen
                    &&& final(self)@ == old(self)@.with_current(
                        old(self)@.current().goto_by_view(PaneView::Terminal),
                    )
                    &&& final(self)@.current().focused_pane().view == PaneView::Terminal
                },
                Err(e) => {
                    &&& old(self)@.full_screen
                    &&& e == LayoutError::InvalidState
                    &&& final(self)@ == old(self)@
                },
            },
    {
        if self.full_screen {
            return Err(LayoutError::InvalidState);
        }
        match self.get_current_pane_mut() {
            Ok(manager) => manager.force_goto_by_view(PaneView::Terminal),
            Err(e) => Err(e),
        }
    }

    /// Makes the profile `name` the active one. Refused when no profile has
    /// that name.
    pub fn set_pane(&mut self, name: &str) -> (done: Result<(), LayoutError>)
        requires
            old(self).wf(),
        ensures
            final(self).wf(),
            match done {
                Ok(_) => old(self)@.profiles.dom().contains(name@) && final(self)@ == old(
                    self,
                )@.activate(name@),
                Err(e) => {
                    &&& !old(self)@.profiles.dom().contains(name@)
                    &&& e == LayoutError::NotFound
                    &&& final(self)@ == old(self)@
                },
            },
    {
        if self.panes.contains(name) {
            self.current_pane = name.to_owned();
            Ok(())
        } else {
            Err(LayoutError::NotFound)
        }
    }

    /// Makes the built-in profile for large terminals the active one.
    pub fn set_large_screen(&mut self)
        requires
            old(self).wf(),
        ensures
            final(self).wf(),
            final(self)@ == old(self)@.activate(LARGE_SCREEN_STR@),
    {
        self.current_pane = LARGE_SCREEN_STR.to_owned();
    }

    /// Makes the built-in profile for small terminals the active one.
    pub fn set_small_screen(&mut self)
        requires
            old(self).wf(),
        ensures
            final(self).wf(),
            final(self)@ == old(self)@.activate(SMALL_SCREEN_STR@),
    {
        self.current_pane = SMALL_SCREEN_STR.to_owned();
    }

    /// Moves the focus of the active profile to the nearest pane above.
    pub fn focus_up(&mut self) -> (done: Result<(), LayoutError>)
        requires
            old(self).wf(),
        ensures
            done is Ok,
            final(self).wf(),
            final(self)@ == old(self)@.with_current(old(self)@.current().steer(Heading::Up)),
    {
        match self.get_current_pane_mut() {
            Ok(manager) => manager.focus_up(),
            Err(e) => Err(e),
        }
    }

    /// Moves the focus of the active profile to the nearest pane below.
    pub fn focus_down(&mut self) -> (done: Result<(), LayoutError>)
        requires
            old(self).wf(),
        ensures
            done is Ok,
            final(self).wf(),
            final(self)@ == old(self)@.with_current(old(self)@.current().steer(Heading::Down)),
    {
        match self.get_current_pane_mut() {
            Ok(manager) => manager.focus_down(),
            Err(e) => Err(e),
        }
    }

    /// Moves the focus of the active profile to the nearest pane on the
    /// left.
    pub fn focus_left(&mut self) -> (done: Result<(), LayoutError>)
        requires
            old(self).wf(),
        ensures
            done is Ok,
            final(self).wf(),
            final(self)@ == old(self)@.with_current(old(self)@.current().steer(Heading::Left)),
    {
        match self.get_current_pane_mut() {
            Ok(manager) => manager.focus_left(),
            Err(e) => Err(e),
        }
    }

    /// Moves the focus of the active profile to the nearest pane on the
    /// right.
    pub fn focus_right(&mut self) -> (done: Result<(), LayoutError>)
        requires
            old(self).wf(),
        ensures
            done is Ok,
            final(self).wf(),
            final(self)@ == old(self)@.with_current(old(self)@.current().steer(Heading::Right)),
    {
        match self.get_current_pane_mut() {
            Ok(manager) => manager.focus_right(),
            Err(e) => Err(e),
        }
    }

    /// Splits the focused pane of the active profile and returns the
    /// identifier of the new pane.
    pub fn split_focused_pane(&mut self, direction: Direction, ratio: [u32; 2]) -> (made: Result<
        PaneId,
        LayoutError,
    >)
        requires
            old(self).wf(),
            ratio[0] > 0,
            ratio[1] > 0,
            old(self)@.current().next_id < usize::MAX,
        ensures
            final(self).wf(),
            made == Ok::<PaneId, LayoutError>(old(self)@.current().next_id),
            final(self)@ == old(self)@.with_current(
                old(self)@.current().split(
                    old(self)@.current().focused,
                    direction,
                    (ratio[0], ratio[1]),
                ),
            ),
    {
        match self.get_current_pane_mut() {
            Ok(manager) => {
                let id = match manager.get_focused_pane() {
                    Ok(pane) => pane.id,
                    Err(e) => {
                        return Err(e);
                    },
                };
                manager.split(id, direction, ratio)
            },
            Err(e) => Err(e),
        }
    }

    /// Closes the focused pane of the active profile by merging it with its
    /// sibling. The sibling is looked for among the nearest panes on the
    /// left, on the right, above and below, in that order, each time starting
    /// from the focused pane. Refused as an invalid operation when the pane
    /// displays the terminal, and as unmergeable when the pane can be merged
    /// with none of the four neighbours; a refused close changes nothing.
    pub fn close_focused_pane(&mut self) -> (done: Result<(), LayoutError>)
        requires
            old(self).wf(),
        ensures
            final(self).wf(),
            done == old(self)@.current().close_outcome(),
            final(self)@ == old(self)@.with_current(old(self)@.current().close()),
    {
        let ghost before = self@;
        proof {
            assert(before.profiles.insert(before.active, before.current()) =~= before.profiles);
        }
        let manager = match self.get_current_pane_mut() {
            Ok(manager) => manager,
            Err(e) => {
                return Err(e);
            },
        };
        let (origin, view) = match manager.get_focused_pane() {
            Ok(pane) => (pane.id, pane.get_current_view()),
            Err(e) => {
                return Err(e);
            },
        };
        if view == PaneView::Terminal {
            return Err(LayoutError::InvalidOperation);
        }
        if merge_toward(manager, origin, Heading::Left) {
            return Ok(());
        }
        if merge_toward(manager, origin, Heading::Right) {
            return Ok(());
        }
        if merge_toward(manager, origin, Heading::Up) {
            return Ok(());
        }
        if merge_toward(manager, origin, Heading::Down) {
            return Ok(());
        }
        Err(LayoutError::Unmergeable)
    }

    /// What to draw into `app`: in full-screen mode the focused pane of the
    /// active profile alone, over the whole area; otherwise the flattened
    /// layout of the active profile. Exactly one entry is marked as focused,
    /// and the entries tile the area.
    pub fn get_flattened_layout(&self, app: Rect) -> (flat: Result<Vec<PaneFlattened>, LayoutError>)
        requires
            self.wf(),
            app.fits(),
        ensures
            flat matches Ok(entries) && entries@ == self@.flattened(app) && one_focused(entries@)
                && tiles(entries@, app),
    {
        proof {
            lemma_screen_flattened(self@, app);
        }
        if self.full_screen {
            let manager = match self.get_current_pane() {
                Ok(manager) => manager,
                Err(e) => {
                    return Err(e);
                },
            };
            let pane = match manager.get_focused_pane() {
                Ok(pane) => pane,
                Err(e) => {
                    return Err(e);
                },
            };
            let mut entries: Vec<PaneFlattened> = Vec::new();
            entries.push(
                PaneFlattened { view: pane.get_current_view(), id: pane.id, focused: true, rect: app },
            );
            proof {
                assert(entries@ =~= self@.flattened(app));
            }
            Ok(entries)
        } else {
            match self.get_current_pane() {
                Ok(manager) => manager.get_flattened_layout(app),
                Err(e) => Err(e),
            }
        }
    }
}

} // verus!
