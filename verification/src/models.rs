//! What is said of a value's model is said of its fields.

use crate::clients::{GpuHolder, GpuUser, OpenFile};
use crate::control::{Command, CommandView, Control, Options};
use crate::devices::{CardScan, Device, GpuRecord};
use crate::drm::DrmClient;
use crate::groups::{Group, Observation};
use crate::hwmon::{Channel, NvidiaLine};
use crate::report::{ProcRow, ProcessReport};
use crate::sockets::Sock;
use crate::stat::ProcStat;
use crate::traffic::{NetRow, SocketHolder};
use vstd::prelude::*;

verus! {

/// A process that was seen has each of its figures in the field of that name.
pub proof fn processes_have_their_fields(o: Observation, s: ProcStat)
    ensures
        o@.pid == o.pid && o@.name == o.name@ && o@.own == o.own,
        o@.utime == o.utime && o@.stime == o.stime && o@.pages == o.pages,
        o@.read_bytes == o.read_bytes && o@.write_bytes == o.write_bytes,
        s@.comm == s.comm@ && s@.utime == s.utime && s@.stime == s.stime && s@.pages == s.pages,
{
}

/// A group and a line of a list have each of their figures in the field of that name.
pub proof fn groups_and_lines_have_their_fields(g: Group, r: ProcRow)
    ensures
        g@.name == g.name@ && g@.pid == g.pid && g@.count == g.count && g@.own == g.own,
        g@.ticks == g.ticks && g@.mem == g.mem && g@.read == g.read && g@.write == g.write,
        g@.pids == g.pids@,
        r@.name == r.name@ && r@.pid == r.pid && r@.count == r.count && r@.pids == r.pids@,
        r@.ticks == r.ticks && r@.mem == r.mem && r@.read == r.read && r@.write == r.write,
{
}

/// A report has each of its lists in the field of that name, line by line.
pub proof fn reports_have_their_lists(r: ProcessReport)
    ensures
        r@.cpu.len() == r.cpu@.len() && forall|i: int|
            0 <= i < r.cpu@.len() ==> #[trigger] r@.cpu[i] == r.cpu@[i]@,
        r@.mem.len() == r.mem@.len() && forall|i: int|
            0 <= i < r.mem@.len() ==> #[trigger] r@.mem[i] == r.mem@[i]@,
        r@.io.len() == r.io@.len() && forall|i: int|
            0 <= i < r.io@.len() ==> #[trigger] r@.io[i] == r.io@[i]@,
        r.total is None <==> r@.total is None,
        r.total matches Some(n) ==> r@.total == Some(n as nat),
        r.all is None <==> r@.all is None,
        r.all matches Some(all) ==> r@.all->0.len() == all@.len() && forall|i: int|
            0 <= i < all@.len() ==> #[trigger] r@.all->0[i] == all@[i]@,
{
}

/// A socket, one who has sockets open and a line of a list of traffic have each of their
/// figures in the field of that name.
pub proof fn sockets_and_traffic_have_their_fields(s: Sock, h: SocketHolder, r: NetRow)
    ensures
        s@.ino == s.ino@ && s@.cgroup == s.cgroup@ && s@.established == s.established,
        s@.sent == s.sent && s@.recv == s.recv,
        h@.pid == h.pid && h@.name == h.name@ && h@.targets.len() == h.targets@.len(),
        forall|i: int|
            0 <= i < h.targets@.len() ==> (#[trigger] h@.targets[i] is Some
                <==> h.targets@[i] is Some),
        forall|i: int|
            0 <= i < h.targets@.len() && h.targets@[i] is Some ==> #[trigger] h@.targets[i]->0
                == h.targets@[i]->0@,
        r@.name == r.name@ && r@.pid == r.pid && r@.count == r.count,
        r@.connections == r.connections && r@.rx == r.rx && r@.tx == r.tx,
{
}

/// A client of a GPU, one who has files open and a user of GPUs have each of their figures
/// in the field of that name.
pub proof fn gpu_users_have_their_fields(c: DrmClient, h: GpuHolder, f: OpenFile, u: GpuUser)
    ensures
        c@.pdev == c.pdev@ && c@.client == c.client@ && c@.vram == c.vram,
        c@.engines == c.engines@,
        h@.pid == h.pid && h@.name == h.name@ && h@.files.len() == h.files@.len(),
        forall|i: int| 0 <= i < h.files@.len() ==> #[trigger] h@.files[i] == h.files@[i]@,
        f@.target is Some <==> f.target is Some,
        f.target matches Some(t) ==> f@.target == Some(t@),
        f@.fdinfo is Some <==> f.fdinfo is Some,
        f.fdinfo matches Some(t) ==> f@.fdinfo == Some(t@),
        u@.name == u.name@ && u@.pid == u.pid && u@.id == u.id@,
        u@.busy == u.busy && u@.vram == u.vram,
{
}

/// A card, what was found of it, what is shown of it and what `nvidia-smi` says of it have
/// each of their figures in the field of that name.
pub proof fn cards_have_their_fields(d: Device, c: CardScan, r: GpuRecord, l: NvidiaLine)
    ensures
        d@.kind == d.kind && d@.card == d.card@ && d@.name == d.name@ && d@.id == d.id@,
        d@.mem_total == d.mem_total,
        d@.hwmon is Some <==> d.hwmon is Some,
        d.hwmon matches Some(t) ==> d@.hwmon == Some(t@),
        c@.device == c.device@ && c@.id == c.id@ && c@.name == c.name@,
        c@.vendor is Some <==> c.vendor is Some,
        c.vendor matches Some(t) ==> c@.vendor == Some(t@),
        c@.hwmon.len() == c.hwmon@.len(),
        forall|i: int| 0 <= i < c.hwmon@.len() ==> #[trigger] c@.hwmon[i] == c.hwmon@[i]@,
        r@.id == r.id@ && r@.name == r.name@ && r@.vendor == r.vendor@ && r@.details == r.details,
        l@.id is Some <==> l.id is Some,
        l.id matches Some(t) ==> l@.id == Some(t@),
        l@.name == l.name@ && l@.util == l.util@ && l@.mem_used == l.mem_used@,
        l@.mem_total == l.mem_total@ && l@.temp == l.temp@ && l@.power == l.power@,
        l@.mhz == l.mhz@ && l@.max_mhz == l.max_mhz@ && l@.fan == l.fan@,
{
}

/// A file of a sensor has its name and its label.
pub proof fn sensor_files_have_their_fields(c: Channel)
    ensures
        c@.name == c.name@,
        c@.label is Some <==> c.label is Some,
        c.label matches Some(t) ==> c@.label == Some(t@),
{
}

/// What was asked for is in the field of its name.
pub proof fn requests_have_their_fields(c: Control, o: Options, m: Command)
    ensures
        c@.interval == c.interval && c@.detail == c.detail && c@.focus == c.focus@,
        c@.public_ip_requested == c.public_ip_requested && c@.stop == c.stop,
        o@.version == o.version && o@.once == o.once && o@.detail == o.detail,
        o@.focus == o.focus@,
        o@.interval is Some <==> o.interval is Some,
        o.interval matches Some(t) ==> o@.interval == Some(t@),
        m matches Command::Detail(level) ==> m@ == CommandView::Detail(level),
        m matches Command::Focus(page) ==> m@ == CommandView::Focus(page@),
        m matches Command::Interval(seconds) ==> m@ == CommandView::Interval(seconds@),
        m is PublicIp ==> m@ == CommandView::PublicIp,
        m is Quit ==> m@ == CommandView::Quit,
{
}

} // verus!
